//! The `Content-Type` of a served file, chosen by its extension.

use crate::path::is_separator;
use vstd::prelude::*;

verus! {

/// The part of `p` after its last separator.
pub open spec fn file_name(p: Seq<char>) -> Seq<char>
    decreases p.len(),
{
    if p.len() == 0 || is_separator(p.last()) {
        Seq::empty()
    } else {
        file_name(p.drop_last()).push(p.last())
    }
}

/// The index of the last `.` in `n`, or -1 where there is none.
pub open spec fn last_dot(n: Seq<char>) -> int
    decreases n.len(),
{
    if n.len() == 0 {
        -1
    } else if n.last() == '.' {
        n.len() - 1
    } else {
        last_dot(n.drop_last())
    }
}

/// The extension of a file name: what follows its last `.`, where that dot is
/// not the name's first character.
pub open spec fn extension(n: Seq<char>) -> Option<Seq<char>> {
    let d = last_dot(n);
    if d <= 0 {
        None
    } else {
        Some(n.subrange(d + 1, n.len() as int))
    }
}

/// The type sent for a file whose extension has no known MIME type.
pub open spec fn octet_stream() -> Seq<char> {
    "application/octet-stream"@
}

/// The first MIME type that the `mime_guess` table registers for an extension.
pub uninterp spec fn guessed_mime(ext: Seq<char>) -> Option<Seq<char>>;

/// The content type sent for a guess.
pub open spec fn type_from_guess(guess: Option<Seq<char>>) -> Seq<char> {
    match guess {
        Some(m) => m,
        None => octet_stream(),
    }
}

/// The content type sent for the file at path `p`.
pub open spec fn content_type_spec(p: Seq<char>) -> Seq<char> {
    match extension(file_name(p)) {
        Some(e) => type_from_guess(guessed_mime(e)),
        None => octet_stream(),
    }
}

/// Relies on `mime_guess::from_ext(ext).first_raw()`: the first MIME type that
/// the crate's table lists for `ext` (compared without regard to case), and
/// nothing for an empty extension.
#[verifier::external_body]
fn guess_mime(ext: &str) -> (r: Option<String>)
    ensures
        match r {
            Some(m) => guessed_mime(ext@) == Some(m@),
            None => guessed_mime(ext@) is None,
        },
        ext@.len() == 0 ==> r is None,
{
    mime_guess::from_ext(ext).first_raw().map(String::from)
}

/// The part of `path` after its last separator.
pub fn file_name_of(path: &str) -> (r: String)
    ensures
        r@ == file_name(path@),
{
    let n = path.unicode_len();
    let mut i: usize = n;
    assert(path@.subrange(n as int, n as int) =~= Seq::<char>::empty());
    assert(path@.subrange(0, n as int) =~= path@);
    let mut at_separator = false;
    while i > 0 && !at_separator
        invariant
            n == path@.len(),
            i <= n,
            at_separator ==> i > 0 && is_separator(path@[i - 1]),
            file_name(path@) == file_name(path@.subrange(0, i as int)) + path@.subrange(
                i as int,
                n as int,
            ),
        decreases i, if at_separator { 0int } else { 1int },
    {
        let c = path.get_char(i - 1);
        if c == '/' || c == '\\' {
            at_separator = true;
        } else {
            let ghost head = path@.subrange(0, i as int);
            assert(head.drop_last() =~= path@.subrange(0, i - 1));
            assert(head.last() == c);
            assert(path@.subrange(i - 1, n as int) =~= seq![c] + path@.subrange(
                i as int,
                n as int,
            ));
            assert(file_name(head) + path@.subrange(i as int, n as int) =~= file_name(
                path@.subrange(0, i - 1),
            ) + path@.subrange(i - 1, n as int));
            i = i - 1;
        }
    }
    assert(i > 0 ==> path@.subrange(0, i as int).last() == path@[i - 1]);
    assert(file_name(path@.subrange(0, i as int)) =~= Seq::<char>::empty());
    assert(file_name(path@) =~= path@.subrange(i as int, n as int));
    path.substring_char(i, n).to_owned()
}

/// The extension of the file name `name`.
pub fn file_extension(name: &str) -> (r: Option<String>)
    ensures
        match r {
            Some(e) => extension(name@) == Some(e@),
            None => extension(name@) is None,
        },
{
    let n = name.unicode_len();
    let mut i: usize = n;
    let mut found = false;
    assert(name@.subrange(0, n as int) =~= name@);
    while i > 0 && !found
        invariant
            n == name@.len(),
            i <= n,
            found ==> i > 0,
            last_dot(name@) == if found {
                i - 1
            } else {
                last_dot(name@.subrange(0, i as int))
            },
        decreases i, if found { 0int } else { 1int },
    {
        let ghost head = name@.subrange(0, i as int);
        assert(head.drop_last() =~= name@.subrange(0, i - 1));
        if name.get_char(i - 1) == '.' {
            found = true;
        } else {
            i = i - 1;
        }
    }
    if !found || i == 1 {
        None
    } else {
        Some(name.substring_char(i, n).to_owned())
    }
}

/// The content type sent for a MIME guess: the guess itself, or
/// `application/octet-stream` where there is none.
pub fn content_type_from_guess(guess: Option<String>) -> (r: String)
    ensures
        match guess {
            Some(m) => r@ == m@,
            None => r@ == octet_stream(),
        },
{
    match guess {
        Some(m) => m,
        None => String::from_str("application/octet-stream"),
    }
}

/// The content type sent for the file at `path`, chosen by the extension of
/// its last component.
pub fn content_type(path: &str) -> (r: String)
    ensures
        r@ == content_type_spec(path@),
{
    let name = file_name_of(path);
    match file_extension(name.as_str()) {
        Some(ext) => content_type_from_guess(guess_mime(ext.as_str())),
        None => String::from_str("application/octet-stream"),
    }
}

} // verus!
