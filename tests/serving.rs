use asset_server::mime::{content_type, content_type_from_guess, file_extension, file_name_of};
use asset_server::path::{normalize, resolve, split_segments, within_root, ResolveError};
use asset_server::serve::{lookup, plan, respond, Asset, FileOutcome, Plan, Response};

fn strings(items: &[&str]) -> Vec<String> {
    items.iter().map(|s| s.to_string()).collect()
}

fn read_plan(p: Plan) -> Asset {
    match p {
        Plan::Read(a) => a,
        Plan::Reply(r) => panic!("expected a file to read, got status {}", r.status),
    }
}

fn reply_plan(p: Plan) -> Response {
    match p {
        Plan::Reply(r) => r,
        Plan::Read(a) => panic!("expected a reply, got a read of {}", a.path),
    }
}

#[test]
fn split_keeps_empty_pieces() {
    assert_eq!(split_segments("/a/b"), strings(&["", "a", "b"]));
    assert_eq!(split_segments(""), strings(&[""]));
    assert_eq!(split_segments("a\\b//c/"), strings(&["a", "b", "", "c", ""]));
}

#[test]
fn normalize_walks_within_root() {
    assert_eq!(
        normalize(&strings(&["a", ".", "", "b", "..", "c"])),
        Some(strings(&["a", "c"]))
    );
    assert_eq!(normalize(&strings(&[])), Some(strings(&[])));
    assert_eq!(normalize(&strings(&["a", "..", ".."])), None);
    assert_eq!(normalize(&strings(&["a/b"])), None);
}

#[test]
fn parent_segments_that_leave_root_are_traversal() {
    let r = resolve("/srv/assets", &strings(&["..", "etc", "passwd"]));
    assert_eq!(r, Err(ResolveError::Traversal));
    let r = resolve("/srv/assets", &strings(&["css", "..", "..", "secret"]));
    assert_eq!(r, Err(ResolveError::Traversal));
    let r = resolve("/srv/assets", &strings(&["..", "assets", "index.html"]));
    assert_eq!(r, Err(ResolveError::Traversal));
}

#[test]
fn traversal_request_is_never_read() {
    for path in ["../secret.txt", "a/../../secret.txt", "..\\..\\etc\\passwd", "/../x"] {
        let r = reply_plan(plan("/srv/assets", "GET", path));
        assert_eq!(r.status, 404);
        assert!(r.body.is_empty());
        assert!(r.content_type.is_none());
    }
}

#[test]
fn parent_segments_inside_root_are_followed() {
    let r = resolve("/srv/assets", &strings(&["css", "..", "js", "app.js"]));
    assert_eq!(r, Ok("/srv/assets/js/app.js".to_string()));
}

#[test]
fn plain_path_resolves_to_itself() {
    let r = resolve("/srv/assets", &strings(&["static", "content", "dist", "output.css"]));
    assert_eq!(r, Ok("/srv/assets/static/content/dist/output.css".to_string()));
}

#[test]
fn found_file_is_sent_byte_for_byte() {
    let a = read_plan(plan("/srv/assets", "GET", "img/logo.png"));
    assert_eq!(a.path, "/srv/assets/img/logo.png");
    let bytes: Vec<u8> = vec![0x89, b'P', b'N', b'G', 0, 255, 10, 13];
    let r = respond(a, FileOutcome::Found(bytes.clone()));
    assert_eq!(r.status, 200);
    assert_eq!(r.body, bytes);
    assert_eq!(r.content_type, Some("image/png".to_string()));
}

#[test]
fn root_request_serves_index_html() {
    for path in ["", "/", "./", "a/.."] {
        let a = read_plan(plan("/srv/assets", "GET", path));
        assert_eq!(a.path, "/srv/assets/index.html");
        assert_eq!(a.content_type, "text/html");
    }
    let a = read_plan(plan("/srv/assets", "GET", "/"));
    let page = b"<!DOCTYPE html><title>hi</title>".to_vec();
    let r = respond(a, FileOutcome::Found(page.clone()));
    assert_eq!(r.status, 200);
    assert_eq!(r.body, page);
}

#[test]
fn missing_file_is_404_with_empty_body() {
    let a = read_plan(plan("/srv/assets", "GET", "/does/not/exist.css"));
    assert_eq!(a.path, "/srv/assets/does/not/exist.css");
    let r = respond(a, FileOutcome::Missing);
    assert_eq!(r.status, 404);
    assert!(r.body.is_empty());
    assert!(r.content_type.is_none());
}

#[test]
fn directory_is_404() {
    let a = read_plan(plan("/srv/assets", "GET", "css/"));
    assert_eq!(a.path, "/srv/assets/css");
    let r = respond(a, FileOutcome::Directory);
    assert_eq!(r.status, 404);
    assert!(r.body.is_empty());
}

#[test]
fn escaped_link_is_404() {
    let a = read_plan(plan("/srv/assets", "GET", "link.txt"));
    let r = respond(a, FileOutcome::Escaped);
    assert_eq!(r.status, 404);
    assert!(r.body.is_empty());
}

#[test]
fn lookup_names_each_failure() {
    assert_eq!(lookup(FileOutcome::Found(vec![1, 2])), Ok(vec![1, 2]));
    assert_eq!(lookup(FileOutcome::Missing), Err(ResolveError::NotFound));
    assert_eq!(lookup(FileOutcome::Directory), Err(ResolveError::NotFound));
    assert_eq!(lookup(FileOutcome::Escaped), Err(ResolveError::Traversal));
}

#[test]
fn other_methods_get_405() {
    for method in ["POST", "PUT", "DELETE", "HEAD", "get", ""] {
        let r = reply_plan(plan("/srv/assets", method, "index.html"));
        assert_eq!(r.status, 405);
        assert!(r.body.is_empty());
    }
}

#[test]
fn css_is_text_css_and_unknown_is_octet_stream() {
    assert_eq!(content_type("/srv/assets/site.css"), "text/css");
    assert_eq!(content_type("/srv/assets/data.xyz123"), "application/octet-stream");
    let a = read_plan(plan("/srv/assets", "GET", "static/content/dist/output.css"));
    assert_eq!(a.content_type, "text/css");
}

#[test]
fn content_type_lookup_ignores_case() {
    assert_eq!(content_type("STYLE.CSS"), "text/css");
    assert_eq!(content_type("a/b/page.html"), "text/html");
    assert_eq!(content_type("app.js"), "text/javascript");
}

#[test]
fn content_type_without_extension_is_octet_stream() {
    assert_eq!(content_type("Makefile"), "application/octet-stream");
    assert_eq!(content_type(".css"), "application/octet-stream");
    assert_eq!(content_type("trailing."), "application/octet-stream");
    assert_eq!(content_type("dir.css/readme"), "application/octet-stream");
}

#[test]
fn content_type_from_guess_falls_back() {
    assert_eq!(content_type_from_guess(Some("text/plain".to_string())), "text/plain");
    assert_eq!(content_type_from_guess(None), "application/octet-stream");
}

#[test]
fn file_names_and_extensions() {
    assert_eq!(file_name_of("/srv/a/b.tar.gz"), "b.tar.gz");
    assert_eq!(file_name_of("plain"), "plain");
    assert_eq!(file_name_of("dir/"), "");
    assert_eq!(file_extension("b.tar.gz"), Some("gz".to_string()));
    assert_eq!(file_extension("a."), Some(String::new()));
    assert_eq!(file_extension(".bashrc"), None);
    assert_eq!(file_extension("..x"), Some("x".to_string()));
    assert_eq!(file_extension("none"), None);
}

#[test]
fn within_root_compares_components() {
    assert!(within_root("/srv/assets", "/srv/assets/css/site.css"));
    assert!(within_root("/srv/assets/", "/srv/assets"));
    assert!(within_root("/", "/etc/passwd"));
    assert!(!within_root("/srv/assets", "/srv/assets-old/x"));
    assert!(!within_root("/srv/assets", "/etc/passwd"));
    assert!(!within_root("/srv/assets", "/srv"));
}

#[test]
fn backslash_is_part_of_a_name_on_disk() {
    assert!(!within_root("/srv/assets", "/srv/assets\\x"));
    assert!(!within_root("/srv/my\\assets", "/srv/my/assets/x"));
    assert!(within_root("/srv/my\\assets", "/srv/my\\assets/x"));
}

#[test]
fn two_files_are_planned_independently() {
    let a = read_plan(plan("/srv/assets", "GET", "a.css"));
    let b = read_plan(plan("/srv/assets", "GET", "b.js"));
    let ra = respond(a, FileOutcome::Found(b"body{}".to_vec()));
    let rb = respond(b, FileOutcome::Found(b"let x;".to_vec()));
    assert_eq!((ra.status, rb.status), (200, 200));
    assert_eq!(ra.body, b"body{}".to_vec());
    assert_eq!(rb.body, b"let x;".to_vec());
    assert_eq!(ra.content_type, Some("text/css".to_string()));
    assert_eq!(rb.content_type, Some("text/javascript".to_string()));
}
