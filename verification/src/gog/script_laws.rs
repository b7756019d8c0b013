//! What holds of every call in a script.
use vstd::prelude::*;

use crate::gog::script;
use crate::text;
use crate::text_laws;

verus! {

/// Where a call is closed: the first closing parenthesis outside quotes.
/// `quoted` tells whether `s` begins inside quotes.
pub open spec fn closing(s: Seq<char>, quoted: bool) -> Option<int>
    decreases s.len(),
{
    if s.len() == 0 {
        None
    } else if !quoted && s.first() == ')' {
        Some(0)
    } else {
        match closing(s.drop_first(), quoted != (s.first() == '\'')) {
            Some(k) => Some(k + 1),
            None => None,
        }
    }
}

/// A call is closed behind its first argument, or where the rest of it is.
proof fn lemma_closing(s: Seq<char>, quoted: bool)
    ensures
        closing(s, quoted) == match script::argument_end(s, quoted) {
            None => None::<int>,
            Some(k) => if s[k] == ')' {
                Some(k)
            } else {
                match closing(s.skip(k + 1), false) {
                    Some(c) => Some(c + k + 1),
                    None => None,
                }
            },
        },
    decreases s.len(),
{
    script::lemma_argument_end(s, quoted);
    if s.len() > 0 {
        if !quoted && (s.first() == ',' || s.first() == ')') {
            assert(s.drop_first() =~= s.skip(1));
        } else {
            let now = quoted != (s.first() == '\'');
            lemma_closing(s.drop_first(), now);
            script::lemma_argument_end(s.drop_first(), now);
            if let Some(k) = script::argument_end(s.drop_first(), now) {
                assert(s.drop_first().skip(k + 1) =~= s.skip(k + 2));
                assert(s.drop_first()[k] == s[k + 1]);
            }
        }
    }
}

/// The arguments of a call are read if and only if the call is closed.
pub proof fn law_a_call_is_read_if_it_is_closed(s: Seq<char>)
    ensures
        script::argument_list(s) is Some <==> closing(s, false) is Some,
    decreases s.len(),
{
    lemma_closing(s, false);
    script::lemma_argument_end(s, false);
    if let Some(k) = script::argument_end(s, false) {
        if s[k] != ')' {
            law_a_call_is_read_if_it_is_closed(s.skip(k + 1));
        }
    }
}

/// A call that ends before it is closed has no closing parenthesis.
proof fn lemma_closing_cut_off(s: Seq<char>, quoted: bool, n: int)
    requires
        0 <= n <= s.len(),
        closing(s, quoted) matches Some(k) ==> n <= k,
    ensures
        closing(s.take(n), quoted) is None,
    decreases s.len(),
{
    if n > 0 {
        let now = quoted != (s.first() == '\'');
        assert(s.take(n).drop_first() =~= s.drop_first().take(n - 1));
        assert(s.take(n).first() == s.first());
        lemma_closing_cut_off(s.drop_first(), now, n - 1);
    }
}

/// Nothing is read of a call that was cut off before it is closed.
pub proof fn law_a_call_that_was_cut_off_is_not_read(s: Seq<char>, n: int)
    requires
        0 <= n <= s.len(),
        closing(s, false) matches Some(k) ==> n <= k,
    ensures
        script::argument_list(s.take(n)) is None,
{
    lemma_closing_cut_off(s, false, n);
    law_a_call_is_read_if_it_is_closed(s.take(n));
}

/// What follows an argument does not change where it ends.
proof fn lemma_argument_end_with(s: Seq<char>, t: Seq<char>, quoted: bool)
    requires
        script::argument_end(s, quoted) is Some,
    ensures
        script::argument_end(s + t, quoted) == script::argument_end(s, quoted),
    decreases s.len(),
{
    assert((s + t).first() == s.first());
    if quoted || (s.first() != ',' && s.first() != ')') {
        assert((s + t).drop_first() =~= s.drop_first() + t);
        lemma_argument_end_with(s.drop_first(), t, quoted != (s.first() == '\''));
    }
}

/// What stands behind a call does not change its arguments.
pub proof fn law_what_follows_a_call_is_not_read(s: Seq<char>, t: Seq<char>)
    requires
        script::argument_list(s) is Some,
    ensures
        script::argument_list(s + t) == script::argument_list(s),
    decreases s.len(),
{
    script::lemma_argument_end(s, false);
    lemma_argument_end_with(s, t, false);
    let k = script::argument_end(s, false)->0;
    assert((s + t).take(k) =~= s.take(k));
    assert((s + t)[k] == s[k]);
    if s[k] != ')' {
        assert((s + t).skip(k + 1) =~= s.skip(k + 1) + t);
        law_what_follows_a_call_is_not_read(s.skip(k + 1), t);
    }
}

/// A text with every quote in it written twice.
pub open spec fn doubled(s: Seq<char>) -> Seq<char>
    decreases s.len(),
{
    if s.len() == 0 {
        s
    } else if s.first() == '\'' {
        seq!['\'', '\''] + doubled(s.drop_first())
    } else {
        seq![s.first()] + doubled(s.drop_first())
    }
}

/// A text written as a quoted argument.
pub open spec fn in_quotes(s: Seq<char>) -> Seq<char> {
    seq!['\''] + doubled(s) + seq!['\'']
}

/// What is written behind an argument: those that follow it, each behind a
/// comma and a space, and the closing parenthesis.
pub open spec fn written_behind(arguments: Seq<Seq<char>>) -> Seq<char>
    decreases arguments.len(),
{
    if arguments.len() == 0 {
        seq![')']
    } else {
        seq![',', ' '] + in_quotes(arguments.first()) + written_behind(arguments.drop_first())
    }
}

/// A call of `name` with its arguments in quotes.
pub open spec fn written_call(name: Seq<char>, arguments: Seq<Seq<char>>) -> Seq<char> {
    name + seq!['('] + if arguments.len() == 0 {
        seq![')']
    } else {
        in_quotes(arguments.first()) + written_behind(arguments.drop_first())
    }
}

/// The end of a quoted argument is looked for behind its closing quote.
proof fn lemma_end_behind_quotes(a: Seq<char>, tail: Seq<char>)
    requires
        script::argument_end(tail, false) == Some(0int),
    ensures
        script::argument_end(doubled(a) + seq!['\''] + tail, true) == Some(
            doubled(a).len() as int + 1,
        ),
    decreases a.len(),
{
    let s = doubled(a) + seq!['\''] + tail;
    if a.len() == 0 {
        assert(s.first() == '\'');
        assert(s.drop_first() =~= tail);
    } else {
        let rest = doubled(a.drop_first()) + seq!['\''] + tail;
        lemma_end_behind_quotes(a.drop_first(), tail);
        if a.first() == '\'' {
            assert(s.first() == '\'');
            assert(s.drop_first().first() == '\'');
            assert(s.drop_first().drop_first() =~= rest);
            reveal_with_fuel(script::argument_end, 3);
        } else {
            assert(s.first() == a.first());
            assert(s.drop_first() =~= rest);
        }
    }
}

/// A quoted argument says what was quoted.
proof fn lemma_unquoted_doubled(a: Seq<char>)
    ensures
        script::unquoted(doubled(a) + seq!['\''], true) == a,
    decreases a.len(),
{
    let s = doubled(a) + seq!['\''];
    if a.len() == 0 {
        assert(s =~= seq!['\'']);
        assert(s.drop_first() =~= a);
        reveal_with_fuel(script::unquoted, 2);
    } else {
        let rest = doubled(a.drop_first()) + seq!['\''];
        lemma_unquoted_doubled(a.drop_first());
        assert(seq![a.first()] + a.drop_first() =~= a);
        if a.first() == '\'' {
            assert(s.first() == '\'' && s[1] == '\'');
            assert(s.skip(2) =~= rest);
        } else {
            assert(s.first() == a.first());
            assert(s.drop_first() =~= rest);
        }
    }
}

/// Arguments in quotes are read back, the first of them behind a space or not.
proof fn lemma_arguments_read_back(lead: Seq<char>, arguments: Seq<Seq<char>>)
    requires
        lead =~= Seq::empty() || lead =~= seq![' '],
        arguments.len() > 0,
    ensures
        script::argument_list(
            lead + in_quotes(arguments.first()) + written_behind(arguments.drop_first()),
        ) == Some(arguments),
    decreases arguments.len(),
{
    let a = arguments.first();
    let others = arguments.drop_first();
    let tail = written_behind(others);
    let s = lead + in_quotes(a) + tail;
    let k = (lead + in_quotes(a)).len() as int;

    // Where the first argument ends.
    let inner = doubled(a) + seq!['\''] + tail;
    assert(tail.first() == if others.len() == 0 {
        ')'
    } else {
        ','
    });
    lemma_end_behind_quotes(a, tail);
    let from_quote = in_quotes(a) + tail;
    assert(from_quote.first() == '\'');
    assert(from_quote.drop_first() =~= inner);
    assert(script::argument_end(from_quote, false) == Some(doubled(a).len() as int + 2));
    if lead.len() == 0 {
        assert(s =~= from_quote);
    } else {
        assert(s.first() == ' ');
        assert(s.drop_first() =~= from_quote);
    }
    assert(script::argument_end(s, false) == Some(k));

    // What it says.
    let segment = s.take(k);
    assert(segment =~= lead + in_quotes(a));
    lemma_unquoted_doubled(a);
    assert(in_quotes(a).first() == '\'');
    assert(in_quotes(a).drop_first() =~= doubled(a) + seq!['\'']);
    assert(script::unquoted(in_quotes(a), false) == a);
    assert(in_quotes(a).last() == '\'');
    if lead.len() == 0 {
        assert(segment =~= in_quotes(a));
    } else {
        assert(segment.first() == ' ');
        assert(segment.drop_first() =~= in_quotes(a));
    }
    assert(text::trimmed_start(in_quotes(a)) == in_quotes(a));
    assert(text::trimmed(segment) == in_quotes(a));
    assert(script::argument_value(segment) == a);

    // The rest.
    assert(s[k] == tail[0]);
    if others.len() == 0 {
        assert(arguments =~= seq![a]);
    } else {
        lemma_arguments_read_back(seq![' '], others);
        assert(s.skip(k + 1) =~= seq![' '] + in_quotes(others.first()) + written_behind(
            others.drop_first(),
        ));
        assert(seq![a] + others =~= arguments);
    }
}

/// Arguments that were written in quotes, with any quotes in them doubled, are
/// read back as they were.
pub proof fn law_quoted_arguments_are_read_back(name: Seq<char>, arguments: Seq<Seq<char>>)
    requires
        name.len() > 0 ==> !text::white_space(name.first()),
    ensures
        script::call(written_call(name, arguments), name) == Some(arguments),
{
    let code = written_call(name, arguments);
    let body = if arguments.len() == 0 {
        seq![')']
    } else {
        in_quotes(arguments.first()) + written_behind(arguments.drop_first())
    };
    assert(code.first() == if name.len() > 0 {
        name.first()
    } else {
        '('
    });
    assert(text::trimmed_start(code) == code);
    assert(code.subrange(0, name.len() as int) =~= name);
    assert(name.is_prefix_of(code));
    let rest = code.skip(name.len() as int);
    assert(rest =~= seq!['('] + body);
    assert(text::trimmed_start(rest) == rest);
    assert(rest.drop_first() =~= body);
    if arguments.len() == 0 {
        assert(script::argument_end(body, false) == Some(0int));
        assert(arguments =~= Seq::empty());
    } else {
        lemma_arguments_read_back(Seq::empty(), arguments);
        assert(Seq::<char>::empty() + in_quotes(arguments.first()) + written_behind(
            arguments.drop_first(),
        ) =~= body);
    }
}

/// A call to a function is not mistaken for a call to one whose name is the
/// beginning of its own.
pub proof fn law_a_longer_name_is_not_a_match(name: Seq<char>, more: Seq<char>, rest: Seq<char>)
    requires
        name.len() > 0,
        !text::white_space(name.first()),
        more.len() > 0,
        !text::white_space(more.first()),
        more.first() != '(',
    ensures
        script::call(name + more + rest, name) is None,
{
    let code = name + more + rest;
    assert(code.first() == name.first());
    let behind = code.skip(name.len() as int);
    assert(behind =~= more + rest);
    assert(behind.first() == more.first());
}

/// A stretch of an argument: written as it is, or in quotes.
pub enum Piece {
    Bare(Seq<char>),
    Quoted(Seq<char>),
}

/// A way to write an argument: stretches one behind the other, with white
/// space around them.
pub struct Written {
    pub before: Seq<char>,
    pub pieces: Seq<Piece>,
    pub after: Seq<char>,
}

/// Whether a text can be written as it is: there is something of it, and it
/// holds no quote, comma or closing parenthesis.
pub open spec fn bare(s: Seq<char>) -> bool {
    s.len() > 0 && !s.contains('\'') && !s.contains(',') && !s.contains(')')
}

/// How a stretch is written.
pub open spec fn piece_text(piece: Piece) -> Seq<char> {
    match piece {
        Piece::Bare(s) => s,
        Piece::Quoted(s) => in_quotes(s),
    }
}

/// What a stretch says.
pub open spec fn piece_meaning(piece: Piece) -> Seq<char> {
    match piece {
        Piece::Bare(s) => s,
        Piece::Quoted(s) => s,
    }
}

/// How stretches are written, one behind the other.
pub open spec fn pieces_text(pieces: Seq<Piece>) -> Seq<char>
    decreases pieces.len(),
{
    if pieces.len() == 0 {
        Seq::empty()
    } else {
        piece_text(pieces.first()) + pieces_text(pieces.drop_first())
    }
}

/// What stretches say, one behind the other.
pub open spec fn pieces_meaning(pieces: Seq<Piece>) -> Seq<char>
    decreases pieces.len(),
{
    if pieces.len() == 0 {
        Seq::empty()
    } else {
        piece_meaning(pieces.first()) + pieces_meaning(pieces.drop_first())
    }
}

/// Whether stretches can stand one behind the other: what is not in quotes can
/// be written as it is, and no two stretches in quotes touch.
pub open spec fn pieces_fit(pieces: Seq<Piece>) -> bool {
    &&& forall|i: int|
        0 <= i < pieces.len() ==> ((#[trigger] pieces[i]) matches Piece::Bare(s) ==> bare(s))
    &&& forall|i: int|
        0 < i < pieces.len() ==> !((#[trigger] pieces[i]) is Quoted && pieces[i - 1] is Quoted)
}

/// Whether an argument can be written this way: the white space around it is
/// white space, and all of it.
pub open spec fn fits(form: Written) -> bool {
    &&& text_laws::blank(form.before)
    &&& text_laws::blank(form.after)
    &&& pieces_fit(form.pieces)
    &&& text_laws::tight(pieces_text(form.pieces))
}

/// How an argument is written.
pub open spec fn written(form: Written) -> Seq<char> {
    form.before + pieces_text(form.pieces) + form.after
}

/// What an argument says.
pub open spec fn meaning(form: Written) -> Seq<char> {
    pieces_meaning(form.pieces)
}

/// What each argument says.
pub open spec fn meanings(forms: Seq<Written>) -> Seq<Seq<char>> {
    Seq::new(forms.len(), |i: int| meaning(forms[i]))
}

/// How arguments are written, with commas between them.
pub open spec fn written_list(forms: Seq<Written>) -> Seq<char>
    decreases forms.len(),
{
    if forms.len() == 0 {
        Seq::empty()
    } else if forms.len() == 1 {
        written(forms.first())
    } else {
        written(forms.first()) + seq![','] + written_list(forms.drop_first())
    }
}

/// The place `by` further on, where there is one.
spec fn further(place: Option<int>, by: int) -> Option<int> {
    match place {
        Some(k) => Some(k + by),
        None => None,
    }
}

/// The end of an argument is looked for behind what is written as it is.
proof fn lemma_end_behind_bare(s: Seq<char>, t: Seq<char>)
    requires
        !s.contains('\''),
        !s.contains(','),
        !s.contains(')'),
    ensures
        script::argument_end(s + t, false) == further(
            script::argument_end(t, false),
            s.len() as int,
        ),
    decreases s.len(),
{
    if s.len() == 0 {
        assert(s + t =~= t);
    } else {
        assert(s.contains(s[0]));
        assert((s + t).first() == s[0]);
        assert((s + t).drop_first() =~= s.drop_first() + t);
        assert forall|c: char| s.drop_first().contains(c) implies s.contains(c) by {
            let i = choose|i: int| 0 <= i < s.drop_first().len() && s.drop_first()[i] == c;
            assert(s[i + 1] == c);
        }
        lemma_end_behind_bare(s.drop_first(), t);
    }
}

/// The end of an argument is looked for behind what is in quotes.
proof fn lemma_end_behind_doubled(a: Seq<char>, t: Seq<char>)
    ensures
        script::argument_end(doubled(a) + seq!['\''] + t, true) == further(
            script::argument_end(t, false),
            doubled(a).len() as int + 1,
        ),
    decreases a.len(),
{
    let s = doubled(a) + seq!['\''] + t;
    if a.len() == 0 {
        assert(s.first() == '\'');
        assert(s.drop_first() =~= t);
    } else {
        let rest = doubled(a.drop_first()) + seq!['\''] + t;
        lemma_end_behind_doubled(a.drop_first(), t);
        if a.first() == '\'' {
            assert(s.first() == '\'');
            assert(s.drop_first().first() == '\'');
            assert(s.drop_first().drop_first() =~= rest);
            reveal_with_fuel(script::argument_end, 3);
        } else {
            assert(s.first() == a.first());
            assert(s.drop_first() =~= rest);
        }
    }
}

/// The end of an argument is looked for behind its stretches.
proof fn lemma_end_behind_pieces(pieces: Seq<Piece>, t: Seq<char>)
    requires
        pieces_fit(pieces),
    ensures
        script::argument_end(pieces_text(pieces) + t, false) == further(
            script::argument_end(t, false),
            pieces_text(pieces).len() as int,
        ),
    decreases pieces.len(),
{
    if pieces.len() == 0 {
        assert(pieces_text(pieces) + t =~= t);
    } else {
        let rest = pieces_text(pieces.drop_first()) + t;
        lemma_rest_fits(pieces);
        lemma_end_behind_pieces(pieces.drop_first(), t);
        assert(pieces_text(pieces) + t =~= piece_text(pieces.first()) + rest);
        match pieces[0] {
            Piece::Bare(s) => {
                lemma_end_behind_bare(s, rest);
            },
            Piece::Quoted(a) => {
                lemma_end_behind_doubled(a, rest);
                let all = in_quotes(a) + rest;
                assert(all.first() == '\'');
                assert(all.drop_first() =~= doubled(a) + seq!['\''] + rest);
            },
        }
    }
}

/// Stretches that fit still do without the first.
proof fn lemma_rest_fits(pieces: Seq<Piece>)
    requires
        pieces_fit(pieces),
        pieces.len() > 0,
    ensures
        pieces_fit(pieces.drop_first()),
        pieces[0] matches Piece::Bare(s) ==> bare(s),
        pieces[0] is Quoted ==> (pieces_text(pieces.drop_first()).len() > 0 ==> pieces_text(
            pieces.drop_first(),
        ).first() != '\''),
{
    let rest = pieces.drop_first();
    assert forall|i: int| 0 <= i < rest.len() implies #[trigger] rest[i] == pieces[i + 1] by {}
    assert forall|i: int| 0 < i < rest.len() implies !((#[trigger] rest[i]) is Quoted && rest[i
        - 1] is Quoted) by {
        assert(rest[i] == pieces[i + 1]);
        assert(rest[i - 1] == pieces[i]);
    }
    if rest.len() > 0 && pieces[0] is Quoted {
        assert(rest[0] == pieces[1]);
        assert(pieces[1] is Bare);
        let s = pieces[1]->Bare_0;
        assert(s.contains(s[0]));
        assert(pieces_text(rest).first() == s[0]);
    }
}

/// Text that is written as it is says what it is.
proof fn lemma_unquoted_bare(s: Seq<char>, t: Seq<char>)
    requires
        !s.contains('\''),
    ensures
        script::unquoted(s + t, false) == s + script::unquoted(t, false),
    decreases s.len(),
{
    if s.len() == 0 {
        assert(s + t =~= t);
        assert(s + script::unquoted(t, false) =~= script::unquoted(t, false));
    } else {
        assert(s.contains(s[0]));
        assert((s + t).first() == s[0]);
        assert((s + t).drop_first() =~= s.drop_first() + t);
        assert forall|c: char| s.drop_first().contains(c) implies s.contains(c) by {
            let i = choose|i: int| 0 <= i < s.drop_first().len() && s.drop_first()[i] == c;
            assert(s[i + 1] == c);
        }
        lemma_unquoted_bare(s.drop_first(), t);
        assert(seq![s[0]] + (s.drop_first() + script::unquoted(t, false)) =~= s
            + script::unquoted(t, false));
    }
}

/// Text in quotes says what is in them.
proof fn lemma_unquoted_quotes(a: Seq<char>, t: Seq<char>)
    requires
        t.len() > 0 ==> t.first() != '\'',
    ensures
        script::unquoted(doubled(a) + seq!['\''] + t, true) == a + script::unquoted(t, false),
    decreases a.len(),
{
    let s = doubled(a) + seq!['\''] + t;
    if a.len() == 0 {
        assert(s.first() == '\'');
        assert(s.len() > 1 ==> s[1] == t[0]);
        assert(s.drop_first() =~= t);
        assert(a + script::unquoted(t, false) =~= script::unquoted(t, false));
    } else {
        let rest = doubled(a.drop_first()) + seq!['\''] + t;
        lemma_unquoted_quotes(a.drop_first(), t);
        assert(seq![a.first()] + (a.drop_first() + script::unquoted(t, false)) =~= a
            + script::unquoted(t, false));
        if a.first() == '\'' {
            assert(s.first() == '\'' && s[1] == '\'');
            assert(s.skip(2) =~= rest);
        } else {
            assert(s.first() == a.first());
            assert(s.drop_first() =~= rest);
        }
    }
}

/// Stretches say, one behind the other, what each says.
proof fn lemma_unquoted_pieces(pieces: Seq<Piece>)
    requires
        pieces_fit(pieces),
    ensures
        script::unquoted(pieces_text(pieces), false) == pieces_meaning(pieces),
    decreases pieces.len(),
{
    if pieces.len() > 0 {
        let rest = pieces_text(pieces.drop_first());
        lemma_rest_fits(pieces);
        lemma_unquoted_pieces(pieces.drop_first());
        match pieces[0] {
            Piece::Bare(s) => {
                lemma_unquoted_bare(s, rest);
            },
            Piece::Quoted(a) => {
                lemma_unquoted_quotes(a, rest);
                let all = in_quotes(a) + rest;
                assert(all.first() == '\'');
                assert(all.drop_first() =~= doubled(a) + seq!['\''] + rest);
            },
        }
    }
}

/// White space is no quote, comma or parenthesis.
proof fn lemma_blank_is_no_mark(s: Seq<char>)
    requires
        text_laws::blank(s),
    ensures
        !s.contains('\''),
        !s.contains(','),
        !s.contains(')'),
{
}

/// An argument is read as what its stretches say, one behind the other: those
/// in quotes without the quotes, the others as they are written. White space
/// around the argument is no part of it.
pub proof fn law_an_argument_is_what_its_pieces_say(form: Written)
    requires
        fits(form),
    ensures
        script::argument_value(written(form)) == meaning(form),
{
    text_laws::law_trimming_takes_the_blank_off(
        form.before,
        pieces_text(form.pieces),
        form.after,
    );
    lemma_unquoted_pieces(form.pieces);
}

/// An argument without quotes is read as it is written.
pub proof fn law_an_argument_without_quotes_is_read_as_written(s: Seq<char>)
    requires
        !s.contains('\''),
        text_laws::tight(s),
    ensures
        script::argument_value(s) == s,
{
    let none = Seq::<char>::empty();
    text_laws::law_trimming_takes_the_blank_off(none, s, none);
    assert(none + s + none =~= s);
    lemma_unquoted_bare(s, none);
    assert(s + none =~= s);
}

/// An argument ends at the separator behind what is written of it.
proof fn lemma_end_behind_written(form: Written, t: Seq<char>)
    requires
        fits(form),
        t.len() > 0,
        t.first() == ',' || t.first() == ')',
    ensures
        script::argument_end(written(form) + t, false) == Some(written(form).len() as int),
{
    lemma_blank_is_no_mark(form.before);
    lemma_blank_is_no_mark(form.after);
    let middle = pieces_text(form.pieces) + (form.after + t);
    lemma_end_behind_bare(form.after, t);
    lemma_end_behind_pieces(form.pieces, form.after + t);
    lemma_end_behind_bare(form.before, middle);
    assert(written(form) + t =~= form.before + middle);
}

/// The argument before a comma is read before those behind it.
proof fn lemma_list_behind_comma(form: Written, t: Seq<char>)
    requires
        fits(form),
    ensures
        script::argument_list(written(form) + seq![','] + t) == match script::argument_list(t) {
            Some(rest) => Some(seq![meaning(form)] + rest),
            None => None,
        },
{
    let s = written(form) + seq![','] + t;
    let k = written(form).len() as int;
    lemma_end_behind_written(form, seq![','] + t);
    law_an_argument_is_what_its_pieces_say(form);
    assert(s =~= written(form) + (seq![','] + t));
    assert(s.take(k) =~= written(form));
    assert(s[k] == ',');
    assert(s.skip(k + 1) =~= t);
}

/// What stands before the closing parenthesis is an argument unless it is
/// nothing at all.
proof fn lemma_list_closed(form: Written, t: Seq<char>)
    requires
        fits(form),
    ensures
        script::argument_list(written(form) + seq![')'] + t) == Some(
            if written(form).len() == 0 {
                Seq::empty()
            } else {
                seq![meaning(form)]
            },
        ),
{
    let s = written(form) + seq![')'] + t;
    let k = written(form).len() as int;
    lemma_end_behind_written(form, seq![')'] + t);
    law_an_argument_is_what_its_pieces_say(form);
    assert(s =~= written(form) + (seq![')'] + t));
    assert(s.take(k) =~= written(form));
    assert(s[k] == ')');
}

/// Arguments are read back however they are written, in quotes or not, with
/// white space around them or not, and whatever follows the call. Nothing
/// between the last comma and the closing parenthesis is no argument.
pub proof fn law_written_arguments_are_read_back(forms: Seq<Written>, t: Seq<char>)
    requires
        forall|i: int| 0 <= i < forms.len() ==> fits(#[trigger] forms[i]),
    ensures
        forms.len() == 0 || written(forms.last()).len() > 0 ==> script::argument_list(
            written_list(forms) + seq![')'] + t,
        ) == Some(meanings(forms)),
        forms.len() > 0 ==> script::argument_list(written_list(forms) + seq![',', ')'] + t) == Some(
            meanings(forms),
        ),
    decreases forms.len(),
{
    let closed = written_list(forms) + seq![')'] + t;
    let comma = written_list(forms) + seq![',', ')'] + t;
    if forms.len() == 0 {
        assert(closed.first() == ')');
        assert(meanings(forms) =~= Seq::empty());
    } else if forms.len() == 1 {
        let form = forms[0];
        assert(meanings(forms) =~= seq![meaning(form)]);
        lemma_list_closed(form, t);
        let tail = seq![')'] + t;
        assert(tail.first() == ')');
        assert(script::argument_list(tail) == Some(Seq::<Seq<char>>::empty()));
        lemma_list_behind_comma(form, tail);
        assert(comma =~= written(form) + seq![','] + tail);
        assert(seq![meaning(form)] + Seq::<Seq<char>>::empty() =~= seq![meaning(form)]);
    } else {
        let form = forms[0];
        let others = forms.drop_first();
        assert forall|i: int| 0 <= i < others.len() implies fits(#[trigger] others[i]) by {
            assert(others[i] == forms[i + 1]);
        }
        assert(others.last() == forms.last());
        law_written_arguments_are_read_back(others, t);
        assert(meanings(forms) =~= seq![meaning(form)] + meanings(others));
        let closed_tail = written_list(others) + seq![')'] + t;
        let comma_tail = written_list(others) + seq![',', ')'] + t;
        lemma_list_behind_comma(form, closed_tail);
        lemma_list_behind_comma(form, comma_tail);
        assert(closed =~= written(form) + seq![','] + closed_tail);
        assert(comma =~= written(form) + seq![','] + comma_tail);
    }
}

/// A call is the name and an opening parenthesis, with white space before
/// either or not, and what is read of it is what is read behind the
/// parenthesis.
pub proof fn law_a_call_is_read_behind_its_parenthesis(
    before: Seq<char>,
    name: Seq<char>,
    between: Seq<char>,
    body: Seq<char>,
)
    requires
        text_laws::blank(before),
        text_laws::blank(between),
        name.len() > 0,
        !text::white_space(name.first()),
    ensures
        script::call(before + name + between + seq!['('] + body, name) == script::argument_list(
            body,
        ),
{
    let code = before + name + between + seq!['('] + body;
    let from_name = name + between + seq!['('] + body;
    let from_parenthesis = seq!['('] + body;
    assert(code =~= before + from_name);
    assert(from_name.first() == name.first());
    text_laws::law_trimming_the_start_takes_the_blank_off(before, from_name);
    assert(from_name.subrange(0, name.len() as int) =~= name);
    assert(name.is_prefix_of(from_name));
    assert(from_name.skip(name.len() as int) =~= between + from_parenthesis);
    assert(from_parenthesis.first() == '(');
    text_laws::law_trimming_the_start_takes_the_blank_off(between, from_parenthesis);
    assert(from_parenthesis.drop_first() =~= body);
}

/// The white space that a text begins with, and the rest of it.
proof fn lemma_start_blank(s: Seq<char>) -> (lead: Seq<char>)
    ensures
        text_laws::blank(lead),
        s == lead + text::trimmed_start(s),
    decreases s.len(),
{
    if s.len() > 0 && text::white_space(s.first()) {
        let more = lemma_start_blank(s.drop_first());
        let lead = seq![s.first()] + more;
        assert forall|i: int| 0 <= i < lead.len() implies text::white_space(#[trigger] lead[i]) by {
            if i > 0 {
                assert(lead[i] == more[i - 1]);
            }
        }
        assert(text::trimmed_start(s) == text::trimmed_start(s.drop_first()));
        assert(s =~= seq![s.first()] + s.drop_first());
        assert(seq![s.first()] + (more + text::trimmed_start(s)) =~= lead + text::trimmed_start(s));
        lead
    } else {
        assert(s =~= Seq::<char>::empty() + s);
        Seq::empty()
    }
}

/// Whether `code` is a call to `name` with `body` behind its opening
/// parenthesis.
pub open spec fn has_the_shape_of_a_call(
    code: Seq<char>,
    before: Seq<char>,
    name: Seq<char>,
    between: Seq<char>,
    body: Seq<char>,
) -> bool {
    &&& text_laws::blank(before)
    &&& text_laws::blank(between)
    &&& code == before + name + between + seq!['('] + body
}

/// Nothing but a call to exactly that function is read.
pub proof fn law_nothing_but_a_call_is_read(code: Seq<char>, name: Seq<char>)
    requires
        script::call(code, name) is Some,
    ensures
        exists|before: Seq<char>, between: Seq<char>, body: Seq<char>|
            #[trigger] has_the_shape_of_a_call(code, before, name, between, body) && closing(
                body,
                false,
            ) is Some,
{
    let from_name = text::trimmed_start(code);
    let rest = from_name.skip(name.len() as int);
    let from_parenthesis = text::trimmed_start(rest);
    let body = from_parenthesis.drop_first();
    let before = lemma_start_blank(code);
    let between = lemma_start_blank(rest);
    assert(from_name =~= name + rest);
    assert(from_parenthesis =~= seq!['('] + body);
    assert(code =~= before + name + between + seq!['('] + body);
    law_a_call_is_read_if_it_is_closed(body);
    assert(has_the_shape_of_a_call(code, before, name, between, body));
}

} // verus!
