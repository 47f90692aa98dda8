//! Deciding what each request gets: the file to read, or the response to send.

use crate::mime::{content_type, content_type_spec};
use crate::path::{pieces, resolve, resolve_spec, split_segments, ResolveError};
use vstd::prelude::*;

verus! {

/// The one method that the server answers.
pub open spec fn get_method() -> Seq<char> {
    "GET"@
}

/// An HTTP response: status, `Content-Type` where one is sent, and body.
pub struct Response {
    pub status: u16,
    pub content_type: Option<String>,
    pub body: Vec<u8>,
}

/// A file to read below the root, with the type it is sent as.
pub struct Asset {
    pub path: String,
    pub content_type: String,
}

/// What a request leads to: a file to look up, or a response to send at once.
pub enum Plan {
    Read(Asset),
    Reply(Response),
}

/// What looking up an asset's path found.
pub enum FileOutcome {
    /// A regular file, with its bytes.
    Found(Vec<u8>),
    /// A directory: directories are never listed and get no default document.
    Directory,
    /// Nothing, or nothing that could be read.
    Missing,
    /// An entry whose canonical path lies outside the root, through a link.
    Escaped,
}

/// A response with `status`, no `Content-Type` and an empty body.
pub open spec fn is_bare(r: Response, status: u16) -> bool {
    &&& r.status == status
    &&& r.content_type is None
    &&& r.body@.len() == 0
}

fn bare(status: u16) -> (r: Response)
    ensures
        is_bare(r, status),
{
    Response { status, content_type: None, body: Vec::new() }
}

fn is_get(method: &str) -> (r: bool)
    ensures
        r == (method@ == get_method()),
{
    proof {
        reveal_strlit("GET");
    }
    if method.unicode_len() != 3 {
        return false;
    }
    let r = method.get_char(0) == 'G' && method.get_char(1) == 'E' && method.get_char(2) == 'T';
    assert(r ==> method@ =~= get_method());
    r
}

/// Routes a request: any method but `GET` gets 405; a path that leads outside
/// `root` gets 404 before anything is opened; any other path names the file to
/// read below `root`, with the content type chosen by its extension.
pub fn plan(root: &str, method: &str, request_path: &str) -> (r: Plan)
    ensures
        match r {
            Plan::Reply(resp) => if method@ == get_method() {
                is_bare(resp, 404) && resolve_spec(root@, pieces(request_path@)) is Err
            } else {
                is_bare(resp, 405)
            },
            Plan::Read(a) => {
                &&& method@ == get_method()
                &&& resolve_spec(root@, pieces(request_path@)) == Ok::<
                    Seq<char>,
                    ResolveError,
                >(a.path@)
                &&& a.content_type@ == content_type_spec(a.path@)
            },
        },
{
    if !is_get(method) {
        return Plan::Reply(bare(405));
    }
    let segments = split_segments(request_path);
    match resolve(root, &segments) {
        Err(_) => Plan::Reply(bare(404)),
        Ok(path) => {
            let content_type = content_type(path.as_str());
            Plan::Read(Asset { path, content_type })
        },
    }
}

/// The bytes that a lookup found, or why there are none.
pub fn lookup(outcome: FileOutcome) -> (r: Result<Vec<u8>, ResolveError>)
    ensures
        match outcome {
            FileOutcome::Found(b) => r == Ok::<Vec<u8>, ResolveError>(b),
            FileOutcome::Escaped => r == Err::<Vec<u8>, ResolveError>(ResolveError::Traversal),
            _ => r == Err::<Vec<u8>, ResolveError>(ResolveError::NotFound),
        },
{
    match outcome {
        FileOutcome::Found(b) => Ok(b),
        FileOutcome::Escaped => Err(ResolveError::Traversal),
        FileOutcome::Directory | FileOutcome::Missing => Err(ResolveError::NotFound),
    }
}

/// The response for `asset` once it has been looked up: 200 with the file's
/// bytes as they are and the asset's content type; 404 with an empty body for
/// every failure, so that a client learns nothing of what lies on disk.
pub fn respond(asset: Asset, outcome: FileOutcome) -> (r: Response)
    ensures
        match outcome {
            FileOutcome::Found(b) => {
                &&& r.status == 200
                &&& r.content_type is Some
                &&& r.content_type->0@ == asset.content_type@
                &&& r.body@ == b@
            },
            _ => is_bare(r, 404),
        },
{
    match lookup(outcome) {
        Ok(body) => Response { status: 200, content_type: Some(asset.content_type), body },
        Err(_) => bare(404),
    }
}

} // verus!
