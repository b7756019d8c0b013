//! Calls in the Pascal that Inno Setup scripts are written in.
use vstd::prelude::*;

use crate::text;

verus! {

/// Where the first argument in `s` ends: the first comma or closing
/// parenthesis outside quotes. `quoted` tells whether `s` begins inside quotes.
pub open spec fn argument_end(s: Seq<char>, quoted: bool) -> Option<int>
    decreases s.len(),
{
    if s.len() == 0 {
        None
    } else if !quoted && (s.first() == ',' || s.first() == ')') {
        Some(0)
    } else {
        match argument_end(s.drop_first(), quoted != (s.first() == '\'')) {
            Some(k) => Some(k + 1),
            None => None,
        }
    }
}

/// What an argument says: its text without the quotes, where two quotes in a
/// row inside a quoted stretch stand for one. `quoted` tells whether `s` begins
/// inside quotes.
pub open spec fn unquoted(s: Seq<char>, quoted: bool) -> Seq<char>
    decreases s.len(),
{
    if s.len() == 0 {
        s
    } else if s.first() != '\'' {
        seq![s.first()] + unquoted(s.drop_first(), quoted)
    } else if quoted && s.len() > 1 && s[1] == '\'' {
        seq!['\''] + unquoted(s.skip(2), true)
    } else {
        unquoted(s.drop_first(), !quoted)
    }
}

/// The value of one argument, given everything between its separators: what it
/// says, without the white space around it. White space inside quotes is part
/// of what it says.
pub open spec fn argument_value(s: Seq<char>) -> Seq<char> {
    unquoted(text::trimmed(s), false)
}

/// An argument ends inside the text that it stands in.
pub proof fn lemma_argument_end(s: Seq<char>, quoted: bool)
    ensures
        argument_end(s, quoted) matches Some(k) ==> 0 <= k < s.len() && (s[k] == ',' || s[k]
            == ')'),
    decreases s.len(),
{
    if s.len() > 0 && (quoted || (s.first() != ',' && s.first() != ')')) {
        lemma_argument_end(s.drop_first(), quoted != (s.first() == '\''));
    }
}

/// The arguments in `s`, which begins right behind an opening parenthesis, up
/// to the closing one. There are none to read where it is never closed. What
/// stands between the last comma and the closing parenthesis is an argument
/// unless it is nothing at all.
pub open spec fn argument_list(s: Seq<char>) -> Option<Seq<Seq<char>>>
    decreases s.len(),
{
    match argument_end(s, false) {
        None => None,
        Some(k) => {
            proof {
                lemma_argument_end(s, false);
            }
            let value = argument_value(s.take(k));
            if s[k] == ')' {
                Some(if k == 0 {
                    Seq::empty()
                } else {
                    seq![value]
                })
            } else {
                match argument_list(s.skip(k + 1)) {
                    Some(rest) => Some(seq![value] + rest),
                    None => None,
                }
            }
        },
    }
}

/// The arguments of the call to `name` that `code` begins with. White space may
/// stand before the name and before the opening parenthesis.
pub open spec fn call(code: Seq<char>, name: Seq<char>) -> Option<Seq<Seq<char>>> {
    let code = text::trimmed_start(code);
    let rest = text::trimmed_start(code.skip(name.len() as int));
    if name.is_prefix_of(code) && rest.len() > 0 && rest.first() == '(' {
        argument_list(rest.drop_first())
    } else {
        None
    }
}

/// The arguments read so far, with those that are still to be read.
spec fn joined(
    read: Seq<Seq<char>>,
    rest: Option<Seq<Seq<char>>>,
) -> Option<Seq<Seq<char>>> {
    match rest {
        Some(rest) => Some(read + rest),
        None => None,
    }
}

/// Reads the arguments of `name(...)` out of a fragment of the Pascal that
/// Inno Setup scripts are written in.
///
/// Returns `None` unless the fragment is a call to exactly that function, so
/// that `before_install_dependency` is not mistaken for `before_install`.
/// Arguments are returned with their quotes removed and `''` unescaped;
/// unquoted ones, which is how the numbers appear, are returned as written.
/// White space around an argument, outside any quotes, is no part of it.
pub fn call_arguments(code: &str, name: &str) -> (result: Option<Vec<String>>)
    ensures
        result.deep_view() == call(code@, name@),
{
    let code = text::characters(code);
    let name = text::characters(name);
    let start = text::skip_white_space(code.as_slice(), 0);
    assert(code@.skip(0) =~= code@);
    if !text::stands_at(code.as_slice(), start, name.as_slice()) {
        return None;
    }
    assert(start + name.len() <= code.len());
    let open = text::skip_white_space(code.as_slice(), start + name.len());
    assert(code@.skip(start as int).skip(name@.len() as int) =~= code@.skip(start + name@.len()));
    if open == code.len() || code[open] != '(' {
        return None;
    }
    assert(code@.skip(open as int).drop_first() =~= code@.skip(open + 1));
    read_arguments(code.as_slice(), open + 1)
}

/// Returns what an argument says, given its text.
fn unquote(s: &[char]) -> (result: String)
    ensures
        result@ == unquoted(s@, false),
{
    let mut result = String::new();
    let mut quoted: bool = false;
    let mut i: usize = 0;
    assert(s@.skip(0) =~= s@);
    assert(result@ + unquoted(s@, false) =~= unquoted(s@, false));

    while i < s.len()
        invariant
            i <= s@.len(),
            unquoted(s@, false) == result@ + unquoted(s@.skip(i as int), quoted),
        decreases s@.len() - i,
    {
        let character = s[i];
        let ghost before = result@;
        let ghost here = s@.skip(i as int);
        assert(here.first() == character);
        assert(here.drop_first() =~= s@.skip(i + 1));
        if character != '\'' {
            result.push(character);
            i = i + 1;
            assert(before + (seq![character] + unquoted(s@.skip(i as int), quoted)) =~= result@
                + unquoted(s@.skip(i as int), quoted));
        } else if quoted && s.len() - i > 1 && s[i + 1] == '\'' {
            // Two quotes in a row are one quote in the string, which is
            // how Pascal escapes them.
            assert(here.skip(2) =~= s@.skip(i + 2));
            result.push('\'');
            i = i + 2;
            assert(before + (seq!['\''] + unquoted(s@.skip(i as int), true)) =~= result@
                + unquoted(s@.skip(i as int), true));
        } else {
            quoted = !quoted;
            i = i + 1;
        }
    }
    assert(result@ + unquoted(s@.skip(i as int), quoted) =~= result@);
    result
}

/// Reads the arguments that begin at `from`, up to the closing parenthesis.
fn read_arguments(code: &[char], from: usize) -> (result: Option<Vec<String>>)
    requires
        from <= code@.len(),
    ensures
        result.deep_view() == argument_list(code@.skip(from as int)),
{
    let mut arguments: Vec<String> = Vec::new();
    let mut quoted: bool = false;
    // The current argument begins at `begin`.
    let mut begin: usize = from;
    let mut i: usize = from;

    while i < code.len()
        invariant
            from <= begin <= i <= code@.len(),
            argument_list(code@.skip(from as int)) == joined(
                arguments.deep_view(),
                argument_list(code@.skip(begin as int)),
            ),
            argument_end(code@.skip(begin as int), false) == match argument_end(
                code@.skip(i as int),
                quoted,
            ) {
                Some(k) => Some(k + (i - begin)),
                None => None::<int>,
            },
        decreases code@.len() - i,
    {
        let character = code[i];
        let ghost read: Seq<Seq<char>> = arguments.deep_view();
        let ghost value = argument_value(code@.subrange(begin as int, i as int));
        proof {
            let rest = code@.skip(begin as int);
            assert(code@.skip(i as int).first() == character);
            assert(code@.skip(i as int).drop_first() =~= code@.skip(i + 1));
            assert(rest.take(i - begin) =~= code@.subrange(begin as int, i as int));
            assert(rest.skip(i - begin + 1) =~= code@.skip(i + 1));
            assert(rest[i - begin] == character);
        }
        if character == '\'' {
            // A quote that is written twice ends the quotes and begins them
            // again.
            quoted = !quoted;
        } else if !quoted && character == ',' {
            arguments.push(unquote(text::trim(&code[begin..i])));
            begin = i + 1;
            proof {
                assert(arguments.deep_view() =~= read.push(value));
                if let Some(rest) = argument_list(code@.skip(begin as int)) {
                    assert(read + (seq![value] + rest) =~= read.push(value) + rest);
                }
            }
        } else if !quoted && character == ')' {
            if begin < i {
                arguments.push(unquote(text::trim(&code[begin..i])));
                assert(arguments.deep_view() =~= read + seq![value]);
            } else {
                assert(arguments.deep_view() =~= read + Seq::<Seq<char>>::empty());
            }
            return Some(arguments);
        }
        i = i + 1;
    }

    // Unterminated: the call was cut off, so nothing here can be trusted.
    None
}

} // verus!
