//! Splitting request paths and confining them to the asset root.

use vstd::prelude::*;

verus! {

/// Characters that separate path components in a request.
pub open spec fn is_separator(c: char) -> bool {
    c == '/' || c == '\\'
}

/// Characters that separate the components of a file-system path: only `/`,
/// for which a `\` is an ordinary character of a name.
pub open spec fn is_fs_separator(c: char) -> bool {
    c == '/'
}

/// Whether `c` splits a string: any separator of a request where `request`
/// holds, `/` alone in a file-system path otherwise.
pub open spec fn splits_at(c: char, request: bool) -> bool {
    if request {
        is_separator(c)
    } else {
        is_fs_separator(c)
    }
}

/// The pieces of `s` between the characters that split it, in order; empty
/// pieces are kept, so a string split at `k` characters has `k + 1` pieces.
pub open spec fn pieces_on(s: Seq<char>, request: bool) -> Seq<Seq<char>>
    decreases s.len(),
{
    if s.len() == 0 {
        seq![Seq::empty()]
    } else {
        let rest = pieces_on(s.drop_last(), request);
        if splits_at(s.last(), request) {
            rest.push(Seq::empty())
        } else {
            rest.update(rest.len() - 1, rest.last().push(s.last()))
        }
    }
}

/// The pieces of a request path between separators.
pub open spec fn pieces(s: Seq<char>) -> Seq<Seq<char>> {
    pieces_on(s, true)
}

/// The views of a sequence of strings.
pub open spec fn views(v: Seq<String>) -> Seq<Seq<char>> {
    v.map_values(|s: String| s@)
}

proof fn lemma_pieces_nonempty(s: Seq<char>, request: bool)
    ensures
        pieces_on(s, request).len() >= 1,
    decreases s.len(),
{
    if s.len() > 0 {
        lemma_pieces_nonempty(s.drop_last(), request);
    }
}

/// Splits `path` at every `/` and `\`, keeping empty pieces.
pub fn split_segments(path: &str) -> (r: Vec<String>)
    ensures
        views(r@) == pieces(path@),
{
    split_on(path, true)
}

/// Splits `path` where `splits_at` says, keeping empty pieces.
fn split_on(path: &str, request: bool) -> (r: Vec<String>)
    ensures
        views(r@) == pieces_on(path@, request),
{
    let n = path.unicode_len();
    let mut out: Vec<String> = Vec::new();
    let mut start: usize = 0;
    let mut i: usize = 0;
    assert(path@.subrange(0, 0) =~= Seq::<char>::empty());
    assert(views(out@) =~= Seq::<Seq<char>>::empty());
    assert(views(out@).push(path@.subrange(0, 0)) =~= pieces_on(path@.subrange(0, 0), request));
    while i < n
        invariant
            n == path@.len(),
            start <= i <= n,
            views(out@).push(path@.subrange(start as int, i as int)) == pieces_on(
                path@.subrange(0, i as int),
                request,
            ),
        decreases n - i,
    {
        let c = path.get_char(i);
        let ghost prev = path@.subrange(0, i as int);
        let ghost next = path@.subrange(0, i + 1);
        assert(next.drop_last() == prev);
        assert(next.last() == c);
        proof {
            lemma_pieces_nonempty(prev, request);
        }
        if c == '/' || (request && c == '\\') {
            let piece = path.substring_char(start, i).to_owned();
            let ghost before = out@;
            out.push(piece);
            assert(out@.drop_last() == before);
            assert(views(out@) == views(before).push(piece@));
            assert(path@.subrange(i + 1, i + 1) == Seq::<char>::empty());
            start = i + 1;
        } else {
            assert(path@.subrange(start as int, i + 1) == path@.subrange(start as int, i as int).push(c));
        }
        i = i + 1;
    }
    let last = path.substring_char(start, n).to_owned();
    let ghost before = out@;
    out.push(last);
    assert(path@.subrange(0, n as int) == path@);
    assert(out@.drop_last() == before);
    assert(views(out@) == views(before).push(last@));
    out
}

/// Whether some character of `s` is a separator.
pub open spec fn has_separator(s: Seq<char>) -> bool {
    exists|i: int| 0 <= i < s.len() && is_separator(#[trigger] s[i])
}

/// A component that names an entry of a directory: not empty, not `.` or `..`,
/// and free of separators.
pub open spec fn is_name(s: Seq<char>) -> bool {
    &&& s.len() > 0
    &&& s != seq!['.']
    &&& s != seq!['.', '.']
    &&& !has_separator(s)
}

/// One step of the walk from the root: empty and `.` segments stay where they
/// are, `..` climbs one level, a name descends into it. Climbing above the root,
/// or a segment that holds a separator, ends the walk.
pub open spec fn step(at: Seq<Seq<char>>, seg: Seq<char>) -> Option<Seq<Seq<char>>> {
    if seg.len() == 0 || seg == seq!['.'] {
        Some(at)
    } else if seg == seq!['.', '.'] {
        if at.len() == 0 {
            None
        } else {
            Some(at.drop_last())
        }
    } else if has_separator(seg) {
        None
    } else {
        Some(at.push(seg))
    }
}

/// The names from the root down to where `segs` leads, or `None` where the
/// segments leave the root.
pub open spec fn walk(segs: Seq<Seq<char>>) -> Option<Seq<Seq<char>>>
    decreases segs.len(),
{
    if segs.len() == 0 {
        Some(Seq::empty())
    } else {
        match walk(segs.drop_last()) {
            None => None,
            Some(at) => step(at, segs.last()),
        }
    }
}

/// The names joined by `/`.
pub open spec fn join(names: Seq<Seq<char>>) -> Seq<char>
    decreases names.len(),
{
    if names.len() == 0 {
        Seq::empty()
    } else if names.len() == 1 {
        names[0]
    } else {
        join(names.drop_last()) + seq!['/'] + names.last()
    }
}

/// The document served where a request names the root itself.
pub open spec fn default_document() -> Seq<char> {
    "index.html"@
}

/// Why a request gets no file.
#[derive(PartialEq, Eq, Structural, Clone, Copy, Debug)]
pub enum ResolveError {
    /// The file is absent, is a directory, or could not be read.
    NotFound,
    /// The request leads outside the root.
    Traversal,
}

/// The names below the root that a request resolves to: the default document
/// where the walk ends at the root itself.
pub open spec fn target_names(at: Seq<Seq<char>>) -> Seq<Seq<char>> {
    if at.len() == 0 {
        seq![default_document()]
    } else {
        at
    }
}

/// The file-system path that `segs` resolve to under `root`.
pub open spec fn resolve_spec(root: Seq<char>, segs: Seq<Seq<char>>) -> Result<
    Seq<char>,
    ResolveError,
> {
    match walk(segs) {
        None => Err(ResolveError::Traversal),
        Some(at) => Ok(root + seq!['/'] + join(target_names(at))),
    }
}

fn is_dot(s: &str) -> (r: bool)
    ensures
        r == (s@ == seq!['.']),
{
    let n = s.unicode_len();
    if n != 1 {
        return false;
    }
    let r = s.get_char(0) == '.';
    assert(r ==> s@ =~= seq!['.']);
    r
}

fn is_dot_dot(s: &str) -> (r: bool)
    ensures
        r == (s@ == seq!['.', '.']),
{
    let n = s.unicode_len();
    if n != 2 {
        return false;
    }
    let r = s.get_char(0) == '.' && s.get_char(1) == '.';
    assert(r ==> s@ =~= seq!['.', '.']);
    r
}

fn contains_separator(s: &str) -> (r: bool)
    ensures
        r == has_separator(s@),
{
    let n = s.unicode_len();
    let mut i: usize = 0;
    while i < n
        invariant
            n == s@.len(),
            i <= n,
            forall|j: int| 0 <= j < i ==> !is_separator(#[trigger] s@[j]),
        decreases n - i,
    {
        let c = s.get_char(i);
        if c == '/' || c == '\\' {
            return true;
        }
        i = i + 1;
    }
    false
}

/// A walk that has left the root stays out, whatever follows.
proof fn lemma_walk_stays_out(segs: Seq<Seq<char>>, k: int)
    requires
        0 <= k <= segs.len(),
        walk(segs.subrange(0, k)) is None,
    ensures
        walk(segs) is None,
    decreases segs.len(),
{
    if k == segs.len() {
        assert(segs.subrange(0, k) == segs);
    } else {
        assert(segs.drop_last().subrange(0, k) == segs.subrange(0, k));
        lemma_walk_stays_out(segs.drop_last(), k);
    }
}

/// Walks `segments` from the root and returns the names it ends at, or `None`
/// where the segments would leave the root.
pub fn normalize(segments: &Vec<String>) -> (r: Option<Vec<String>>)
    ensures
        match r {
            None => walk(views(segments@)) is None,
            Some(at) => walk(views(segments@)) == Some(views(at@)),
        },
{
    let ghost segs = views(segments@);
    let mut at: Vec<String> = Vec::new();
    let mut i: usize = 0;
    assert(segs.subrange(0, 0) =~= Seq::<Seq<char>>::empty());
    assert(views(at@) =~= Seq::<Seq<char>>::empty());
    while i < segments.len()
        invariant
            segs == views(segments@),
            i <= segments@.len(),
            walk(segs.subrange(0, i as int)) == Some(views(at@)),
        decreases segments@.len() - i,
    {
        let seg = &segments[i];
        let ghost done = segs.subrange(0, i as int);
        assert(segs.subrange(0, i + 1).drop_last() == done);
        assert(segs.subrange(0, i + 1).last() == seg@);
        let ghost before = at@;
        if seg.unicode_len() == 0 || is_dot(seg.as_str()) {
        } else if is_dot_dot(seg.as_str()) {
            if at.len() == 0 {
                proof {
                    lemma_walk_stays_out(segs, i + 1);
                }
                return None;
            }
            at.pop();
            assert(views(at@) =~= views(before).drop_last());
        } else if contains_separator(seg.as_str()) {
            proof {
                lemma_walk_stays_out(segs, i + 1);
            }
            return None;
        } else {
            at.push(seg.clone());
            assert(views(at@) =~= views(before).push(seg@));
        }
        i = i + 1;
    }
    assert(segs.subrange(0, segments@.len() as int) == segs);
    Some(at)
}

/// Joins `names` with `/`.
fn join_names(names: &Vec<String>) -> (r: String)
    ensures
        r@ == join(views(names@)),
{
    let ghost all = views(names@);
    let mut out = String::new();
    let mut i: usize = 0;
    assert(all.subrange(0, 0).len() == 0);
    while i < names.len()
        invariant
            all == views(names@),
            i <= names@.len(),
            out@ == join(all.subrange(0, i as int)),
        decreases names@.len() - i,
    {
        proof {
            reveal_strlit("/");
        }
        let ghost next = all.subrange(0, i + 1);
        assert(next.drop_last() == all.subrange(0, i as int));
        assert(next.last() == names@[i as int]@);
        if i > 0 {
            out.append("/");
        } else {
            assert(out@ + names@[0]@ =~= names@[0]@);
        }
        out.append(names[i].as_str());
        i = i + 1;
    }
    assert(all.subrange(0, names@.len() as int) == all);
    out
}

/// Resolves the request `segments` to a path under `root`. Segments that would
/// climb above the root are refused; a request for the root itself gets the
/// default document.
pub fn resolve(root: &str, segments: &Vec<String>) -> (r: Result<String, ResolveError>)
    ensures
        match r {
            Ok(p) => resolve_spec(root@, views(segments@)) == Ok::<Seq<char>, ResolveError>(p@),
            Err(e) => resolve_spec(root@, views(segments@)) == Err::<Seq<char>, ResolveError>(e),
        },
{
    match normalize(segments) {
        None => Err(ResolveError::Traversal),
        Some(at) => {
            let names = if at.len() == 0 {
                let v = vec![String::from_str("index.html")];
                assert(views(v@) =~= seq![default_document()]);
                v
            } else {
                at
            };
            let mut p = root.to_owned();
            p.append("/");
            let tail = join_names(&names);
            p.append(tail.as_str());
            proof {
                reveal_strlit("/");
            }
            assert(p@ =~= root@ + seq!['/'] + join(views(names@)));
            Ok(p)
        },
    }
}

/// The non-empty pieces of `ps`, in order.
pub open spec fn non_empty(ps: Seq<Seq<char>>) -> Seq<Seq<char>>
    decreases ps.len(),
{
    if ps.len() == 0 {
        Seq::empty()
    } else if ps.last().len() == 0 {
        non_empty(ps.drop_last())
    } else {
        non_empty(ps.drop_last()).push(ps.last())
    }
}

/// The components of a file-system path: its pieces between `/`, empty ones
/// left out.
pub open spec fn components(p: Seq<char>) -> Seq<Seq<char>> {
    non_empty(pieces_on(p, false))
}

/// Whether the components of `root` begin the components of `target`, so that
/// `target` is `root` or lies below it.
pub open spec fn within(root: Seq<char>, target: Seq<char>) -> bool {
    let rc = components(root);
    let tc = components(target);
    rc.len() <= tc.len() && tc.subrange(0, rc.len() as int) == rc
}

fn components_of(p: &str) -> (r: Vec<String>)
    ensures
        views(r@) == components(p@),
{
    let ps = split_on(p, false);
    let ghost all = views(ps@);
    let mut out: Vec<String> = Vec::new();
    let mut i: usize = 0;
    assert(all.subrange(0, 0).len() == 0);
    assert(views(out@) =~= Seq::<Seq<char>>::empty());
    while i < ps.len()
        invariant
            all == views(ps@),
            i <= ps@.len(),
            views(out@) == non_empty(all.subrange(0, i as int)),
        decreases ps@.len() - i,
    {
        let ghost next = all.subrange(0, i + 1);
        assert(next.drop_last() == all.subrange(0, i as int));
        assert(next.last() == ps@[i as int]@);
        if ps[i].unicode_len() > 0 {
            let ghost before = out@;
            out.push(ps[i].clone());
            assert(views(out@) =~= views(before).push(ps@[i as int]@));
        }
        i = i + 1;
    }
    assert(all.subrange(0, ps@.len() as int) == all);
    out
}

/// Whether `target` is `root` or lies below it, component by component. Meant
/// for canonical paths, where no component is `.` or `..` and no link remains.
pub fn within_root(root: &str, target: &str) -> (r: bool)
    ensures
        r == within(root@, target@),
{
    let rc = components_of(root);
    let tc = components_of(target);
    if rc.len() > tc.len() {
        return false;
    }
    let ghost rv = views(rc@);
    let ghost tv = views(tc@);
    let mut i: usize = 0;
    while i < rc.len()
        invariant
            rv == views(rc@),
            tv == views(tc@),
            rv == components(root@),
            tv == components(target@),
            rc@.len() <= tc@.len(),
            i <= rc@.len(),
            forall|j: int| 0 <= j < i ==> rv[j] == tv[j],
        decreases rc@.len() - i,
    {
        let same = rc[i].eq(&tc[i]);
        if !same {
            assert(rv[i as int] == rc@[i as int]@ && tv[i as int] == tc@[i as int]@);
            assert(tv.subrange(0, rv.len() as int)[i as int] != rv[i as int]);
            return false;
        }
        i = i + 1;
    }
    assert(tv.subrange(0, rv.len() as int) =~= rv);
    true
}

proof fn lemma_walk_yields_names(segs: Seq<Seq<char>>)
    ensures
        walk(segs) matches Some(at) ==> forall|i: int| 0 <= i < at.len() ==> is_name(#[trigger] at[i]),
    decreases segs.len(),
{
    if segs.len() > 0 {
        lemma_walk_yields_names(segs.drop_last());
    }
}

proof fn lemma_default_document_is_name()
    ensures
        is_name(default_document()),
{
    reveal_strlit("index.html");
    let d = default_document();
    assert(d.len() == 10);
    assert forall|i: int| 0 <= i < d.len() implies !is_separator(#[trigger] d[i]) by {
        assert(d[i] == 'i' || d[i] == 'n' || d[i] == 'd' || d[i] == 'e' || d[i] == 'x' || d[i]
            == '.' || d[i] == 'h' || d[i] == 't' || d[i] == 'm' || d[i] == 'l');
    }
}

/// A `..` that climbs above the root, wherever it stands among the segments,
/// makes the whole request a traversal: no path is produced for it, whatever
/// follows.
pub proof fn lemma_climbing_above_root_is_refused(root: Seq<char>, segs: Seq<Seq<char>>, k: int)
    requires
        0 <= k < segs.len(),
        segs[k] == seq!['.', '.'],
        walk(segs.subrange(0, k)) == Some(Seq::<Seq<char>>::empty()),
    ensures
        resolve_spec(root, segs) == Err::<Seq<char>, ResolveError>(ResolveError::Traversal),
{
    let head = segs.subrange(0, k + 1);
    assert(head.drop_last() == segs.subrange(0, k));
    assert(head.last() == segs[k]);
    lemma_walk_stays_out(segs, k + 1);
}

/// Every path that a request resolves to is `root`, a `/`, and one or more
/// names joined by `/`: no component of what follows the root is empty, `.`
/// or `..`, or holds a separator, so the path lies below the root.
pub proof fn lemma_resolved_path_is_below_root(root: Seq<char>, segs: Seq<Seq<char>>)
    ensures
        resolve_spec(root, segs) matches Ok(p) ==> {
            let names = target_names(walk(segs)->0);
            &&& walk(segs) is Some
            &&& names.len() >= 1
            &&& forall|i: int| 0 <= i < names.len() ==> is_name(#[trigger] names[i])
            &&& p == root + seq!['/'] + join(names)
        },
{
    lemma_walk_yields_names(segs);
    lemma_default_document_is_name();
}

proof fn lemma_walk_of_names(segs: Seq<Seq<char>>)
    requires
        forall|i: int| 0 <= i < segs.len() ==> is_name(#[trigger] segs[i]),
    ensures
        walk(segs) == Some(segs),
    decreases segs.len(),
{
    if segs.len() > 0 {
        let init = segs.drop_last();
        assert forall|i: int| 0 <= i < init.len() implies is_name(#[trigger] init[i]) by {
            assert(init[i] == segs[i]);
        }
        lemma_walk_of_names(init);
        assert(is_name(segs[segs.len() - 1]));
        assert(init.push(segs.last()) == segs);
    } else {
        assert(segs == Seq::<Seq<char>>::empty());
    }
}

/// A relative path made of names alone resolves to exactly that path under
/// the root: nothing is dropped, added or reordered on the way.
pub proof fn lemma_plain_path_resolves_to_itself(root: Seq<char>, segs: Seq<Seq<char>>)
    requires
        segs.len() > 0,
        forall|i: int| 0 <= i < segs.len() ==> is_name(#[trigger] segs[i]),
    ensures
        resolve_spec(root, segs) == Ok::<Seq<char>, ResolveError>(root + seq!['/'] + join(segs)),
{
    lemma_walk_of_names(segs);
}

proof fn lemma_pieces_of_name(prefix: Seq<char>, n: Seq<char>)
    requires
        !has_separator(n),
    ensures
        pieces(prefix + seq!['/'] + n) == pieces(prefix).push(n),
        pieces(n) == seq![n],
    decreases n.len(),
{
    let whole = prefix + seq!['/'] + n;
    if n.len() == 0 {
        assert(whole.drop_last() =~= prefix);
        assert(whole.last() == '/');
        assert(n =~= Seq::<char>::empty());
    } else {
        let init = n.drop_last();
        assert forall|i: int| 0 <= i < init.len() implies !is_separator(#[trigger] init[i]) by {
            assert(init[i] == n[i]);
        }
        assert(!is_separator(n[n.len() - 1]));
        lemma_pieces_of_name(prefix, init);
        assert(whole.drop_last() =~= prefix + seq!['/'] + init);
        assert(whole.last() == n.last());
        assert(init.push(n.last()) =~= n);
        assert(pieces(prefix).push(init).update(pieces(prefix).len() as int, n) =~= pieces(
            prefix,
        ).push(n));
        assert(seq![init].update(0, n) =~= seq![n]);
    }
}

proof fn lemma_pieces_of_join(names: Seq<Seq<char>>)
    requires
        names.len() > 0,
        forall|i: int| 0 <= i < names.len() ==> is_name(#[trigger] names[i]),
    ensures
        pieces(join(names)) == names,
    decreases names.len(),
{
    if names.len() == 1 {
        assert(is_name(names[0]));
        lemma_pieces_of_name(Seq::empty(), names[0]);
        assert(seq![names[0]] =~= names);
    } else {
        let init = names.drop_last();
        assert forall|i: int| 0 <= i < init.len() implies is_name(#[trigger] init[i]) by {
            assert(init[i] == names[i]);
        }
        lemma_pieces_of_join(init);
        assert(is_name(names[names.len() - 1]));
        lemma_pieces_of_name(join(init), names.last());
        assert(init.push(names.last()) =~= names);
    }
}

/// A request path written as names joined by `/` resolves to exactly that
/// path under the root.
pub proof fn lemma_plain_request_resolves_to_itself(root: Seq<char>, names: Seq<Seq<char>>)
    requires
        names.len() > 0,
        forall|i: int| 0 <= i < names.len() ==> is_name(#[trigger] names[i]),
    ensures
        resolve_spec(root, pieces(join(names))) == Ok::<Seq<char>, ResolveError>(
            root + seq!['/'] + join(names),
        ),
{
    lemma_pieces_of_join(names);
    lemma_plain_path_resolves_to_itself(root, names);
}

/// Two different request paths made of names lead to two different files
/// below the root, so serving one never touches the file of the other.
pub proof fn lemma_different_requests_read_different_files(
    root: Seq<char>,
    a: Seq<Seq<char>>,
    b: Seq<Seq<char>>,
)
    requires
        a.len() > 0,
        b.len() > 0,
        forall|i: int| 0 <= i < a.len() ==> is_name(#[trigger] a[i]),
        forall|i: int| 0 <= i < b.len() ==> is_name(#[trigger] b[i]),
        a != b,
    ensures
        resolve_spec(root, a) is Ok,
        resolve_spec(root, b) is Ok,
        resolve_spec(root, a) != resolve_spec(root, b),
{
    lemma_plain_path_resolves_to_itself(root, a);
    lemma_plain_path_resolves_to_itself(root, b);
    lemma_pieces_of_join(a);
    lemma_pieces_of_join(b);
    let pa = root + seq!['/'] + join(a);
    let pb = root + seq!['/'] + join(b);
    if pa == pb {
        assert(pa.subrange(root.len() as int + 1, pa.len() as int) =~= join(a));
        assert(pb.subrange(root.len() as int + 1, pb.len() as int) =~= join(b));
    }
}

} // verus!
