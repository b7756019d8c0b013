//! Windows paths and the directory constants they begin with.
use vstd::prelude::*;

use crate::text;

verus! {

/// A path with `/` in place of every `\`.
pub open spec fn normalized(path: Seq<char>) -> Seq<char> {
    Seq::new(
        path.len(),
        |i: int|
            if path[i] == '\\' {
                '/'
            } else {
                path[i]
            },
    )
}

/// The part of a path behind the separator that it begins with, if it does.
pub open spec fn without_separator(path: Seq<char>) -> Seq<char> {
    if path.len() > 0 && (path.first() == '\\' || path.first() == '/') {
        path.drop_first()
    } else {
        path
    }
}

/// A destination as its directory constant, if it begins with one in braces,
/// and the path under it.
pub open spec fn rooted(destination: Seq<char>) -> (Option<Seq<char>>, Seq<char>) {
    if destination.len() > 0 && destination.first() == '{' {
        let rest = destination.drop_first();
        match text::position(rest, '}') {
            Some(end) => (
                Some(rest.take(end)),
                normalized(without_separator(rest.skip(end + 1))),
            ),
            None => (None, normalized(destination)),
        }
    } else {
        (None, normalized(destination))
    }
}

/// Turns a Windows path from the installer script into the form with `/`
/// separators.
pub fn normalize(path: &str) -> (result: String)
    ensures
        result@ == normalized(path@),
{
    let characters = text::characters(path);
    normalize_from(characters.as_slice(), 0)
}

/// Normalizes the part of a path that begins at `from`.
fn normalize_from(path: &[char], from: usize) -> (result: String)
    requires
        from <= path@.len(),
    ensures
        result@ == normalized(path@.skip(from as int)),
{
    let mut result = String::new();
    for i in from..path.len()
        invariant
            from <= path@.len(),
            result@ == normalized(path@.skip(from as int)).take(i - from),
    {
        if path[i] == '\\' {
            result.push('/');
        } else {
            result.push(path[i]);
        }
    }
    result
}

/// Splits `{app}\Data\x.dat` into its directory constant and the path
/// under it. A destination with no constant keeps its whole path and has no
/// root.
pub fn split_root(destination: &str) -> (result: (Option<String>, String))
    ensures
        result.0.deep_view() == rooted(destination@).0,
        result.1@ == rooted(destination@).1,
{
    let characters = text::characters(destination);
    let s = characters.as_slice();
    if s.len() == 0 || s[0] != '{' {
        return (None, normalize_from(s, 0));
    }
    assert(s@.skip(1) =~= s@.drop_first());
    let end = match text::find(s, 1, '}') {
        Some(end) => end,
        None => return (None, normalize_from(s, 0)),
    };
    let root = text::text_of(&s[1..1 + end]);
    let mut from: usize = end + 2;
    assert(s@.skip(1).skip(end + 1) =~= s@.skip(from as int));
    assert(s@.subrange(1, 1 + end) =~= s@.skip(1).take(end as int));
    if from < s.len() && (s[from] == '\\' || s[from] == '/') {
        assert(s@.skip(from as int).drop_first() =~= s@.skip(from + 1));
        from = from + 1;
    }
    (Some(root), normalize_from(s, from))
}

} // verus!
