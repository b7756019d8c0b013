//! What holds of every text.
use vstd::prelude::*;

use crate::text;

verus! {

/// Whether `s` is made of white space alone.
pub open spec fn blank(s: Seq<char>) -> bool {
    forall|i: int| 0 <= i < s.len() ==> text::white_space(#[trigger] s[i])
}

/// Whether `s` neither begins nor ends in white space.
pub open spec fn tight(s: Seq<char>) -> bool {
    s.len() > 0 ==> !text::white_space(s.first()) && !text::white_space(s.last())
}

/// White space is these twenty-five characters and no others.
pub proof fn law_the_white_space_characters(c: char)
    ensures
        text::white_space(c) <==> seq![
            '\t', '\n', '\u{b}', '\u{c}', '\r', ' ', '\u{85}', '\u{a0}', '\u{1680}', '\u{2000}',
            '\u{2001}', '\u{2002}', '\u{2003}', '\u{2004}', '\u{2005}', '\u{2006}', '\u{2007}',
            '\u{2008}', '\u{2009}', '\u{200a}', '\u{2028}', '\u{2029}', '\u{202f}', '\u{205f}',
            '\u{3000}',
        ].contains(c),
{
    let list = seq![
        '\t', '\n', '\u{b}', '\u{c}', '\r', ' ', '\u{85}', '\u{a0}', '\u{1680}', '\u{2000}',
        '\u{2001}', '\u{2002}', '\u{2003}', '\u{2004}', '\u{2005}', '\u{2006}', '\u{2007}',
        '\u{2008}', '\u{2009}', '\u{200a}', '\u{2028}', '\u{2029}', '\u{202f}', '\u{205f}',
        '\u{3000}',
    ];
    if text::white_space(c) {
        let k = if '\u{9}' <= c <= '\u{d}' {
            c as int - 9
        } else if c == ' ' {
            5
        } else if c == '\u{85}' {
            6
        } else if c == '\u{a0}' {
            7
        } else if c == '\u{1680}' {
            8
        } else if '\u{2000}' <= c <= '\u{200a}' {
            c as int - 0x2000 + 9
        } else if c == '\u{2028}' {
            20
        } else if c == '\u{2029}' {
            21
        } else if c == '\u{202f}' {
            22
        } else if c == '\u{205f}' {
            23
        } else {
            24
        };
        assert(list[k] == c);
    }
}

/// Trimming the beginning takes off all the white space there and nothing else.
pub proof fn law_trimming_the_start_takes_the_blank_off(blank_start: Seq<char>, rest: Seq<char>)
    requires
        blank(blank_start),
        rest.len() > 0 ==> !text::white_space(rest.first()),
    ensures
        text::trimmed_start(blank_start + rest) == rest,
    decreases blank_start.len(),
{
    let s = blank_start + rest;
    if blank_start.len() == 0 {
        assert(s =~= rest);
    } else {
        assert(text::white_space(blank_start[0]));
        assert(s.first() == blank_start[0]);
        assert(s.drop_first() =~= blank_start.drop_first() + rest);
        assert forall|i: int| 0 <= i < blank_start.drop_first().len() implies text::white_space(
            #[trigger] blank_start.drop_first()[i],
        ) by {
            assert(blank_start.drop_first()[i] == blank_start[i + 1]);
        }
        law_trimming_the_start_takes_the_blank_off(blank_start.drop_first(), rest);
    }
}

/// Trimming the end takes off all the white space there and nothing else.
pub proof fn law_trimming_the_end_takes_the_blank_off(rest: Seq<char>, blank_end: Seq<char>)
    requires
        blank(blank_end),
        rest.len() > 0 ==> !text::white_space(rest.last()),
    ensures
        text::trimmed_end(rest + blank_end) == rest,
    decreases blank_end.len(),
{
    let s = rest + blank_end;
    if blank_end.len() == 0 {
        assert(s =~= rest);
    } else {
        assert(text::white_space(blank_end[blank_end.len() - 1]));
        assert(s.last() == blank_end.last());
        assert(s.drop_last() =~= rest + blank_end.drop_last());
        law_trimming_the_end_takes_the_blank_off(rest, blank_end.drop_last());
    }
}

/// Trimming takes off the white space around a text and nothing else.
pub proof fn law_trimming_takes_the_blank_off(
    before: Seq<char>,
    core: Seq<char>,
    after: Seq<char>,
)
    requires
        blank(before),
        blank(after),
        tight(core),
    ensures
        text::trimmed(before + core + after) == core,
{
    assert(before + core + after =~= before + (core + after));
    if core.len() > 0 {
        assert((core + after).first() == core.first());
        law_trimming_the_start_takes_the_blank_off(before, core + after);
    } else {
        let all = before + after;
        assert(before + (core + after) =~= all + Seq::<char>::empty());
        assert forall|i: int| 0 <= i < all.len() implies text::white_space(#[trigger] all[i]) by {
            if i < before.len() {
                assert(all[i] == before[i]);
            } else {
                assert(all[i] == after[i - before.len()]);
            }
        }
        law_trimming_the_start_takes_the_blank_off(all, Seq::empty());
        assert(core =~= Seq::empty());
        assert(text::trimmed_start(before + core + after) =~= core + Seq::<char>::empty());
        law_trimming_the_end_takes_the_blank_off(core, Seq::empty());
    }
    if core.len() > 0 {
        law_trimming_the_end_takes_the_blank_off(core, after);
    }
}

/// The first occurrence of a character stands behind everything that does not
/// hold it, and there is one if the text holds the character at all.
pub proof fn law_the_first_occurrence_is_found(s: Seq<char>, c: char)
    ensures
        match text::position(s, c) {
            Some(k) => {
                &&& 0 <= k < s.len()
                &&& s[k] == c
                &&& forall|i: int| 0 <= i < k ==> #[trigger] s[i] != c
            },
            None => !s.contains(c),
        },
    decreases s.len(),
{
    if s.len() > 0 {
        let rest = s.drop_first();
        law_the_first_occurrence_is_found(rest, c);
        assert forall|i: int| 0 < i < s.len() implies #[trigger] s[i] == rest[i - 1] by {}
        if text::position(s, c) is None {
            assert forall|i: int| 0 <= i < s.len() implies s[i] != c by {
                if i > 0 {
                    assert(rest.contains(rest[i - 1]));
                }
            }
        }
    }
}

/// Whether every character of `s` is one of the ten digits.
pub open spec fn digits_only(s: Seq<char>) -> bool {
    forall|i: int|
        0 <= i < s.len() ==> seq!['0', '1', '2', '3', '4', '5', '6', '7', '8', '9'].contains(
            #[trigger] s[i],
        )
}

/// The ten digits are the characters that numbers are made of.
proof fn lemma_digits(s: Seq<char>)
    ensures
        digits_only(s) == text::all_digits(s),
{
    let ten = seq!['0', '1', '2', '3', '4', '5', '6', '7', '8', '9'];
    if text::all_digits(s) {
        assert forall|i: int| 0 <= i < s.len() implies ten.contains(#[trigger] s[i]) by {
            assert(text::digit(s[i]));
            assert(ten[s[i] as int - '0' as int] == s[i]);
        }
    }
    if digits_only(s) {
        assert forall|i: int| 0 <= i < s.len() implies text::digit(#[trigger] s[i]) by {
            assert(ten.contains(s[i]));
        }
    }
}

/// A digit writes its own value, and digits before others count as many times
/// more as the others have places.
pub proof fn law_the_value_of_digits(a: Seq<char>, b: Seq<char>, d: int)
    requires
        0 <= d < 10,
    ensures
        text::decimal_value(
            seq![seq!['0', '1', '2', '3', '4', '5', '6', '7', '8', '9'][d]],
        ) == d,
        text::decimal_value(a + b) == text::decimal_value(a) * vstd::arithmetic::power::pow(
            10,
            b.len(),
        ) + text::decimal_value(b),
    decreases b.len(),
{
    let one = seq![seq!['0', '1', '2', '3', '4', '5', '6', '7', '8', '9'][d]];
    assert(one.drop_last() =~= Seq::empty());
    reveal_with_fuel(text::decimal_value, 2);
    reveal(vstd::arithmetic::power::pow);
    if b.len() == 0 {
        assert(a + b =~= a);
        assert(text::decimal_value(a) * 1 == text::decimal_value(a));
    } else {
        let v = text::decimal_value(a);
        let w = text::decimal_value(b.drop_last());
        let p = vstd::arithmetic::power::pow(10, (b.len() - 1) as nat);
        law_the_value_of_digits(a, b.drop_last(), d);
        assert((a + b).drop_last() =~= a + b.drop_last());
        assert((a + b).last() == b.last());
        assert((v * p + w) * 10 == v * (10 * p) + w * 10) by (nonlinear_arith);
    }
}

/// A number is read from digits, with or without a plus sign before them, as
/// what they write, as long as it is in range.
pub proof fn law_a_number_is_read_from_digits(s: Seq<char>)
    requires
        s.len() > 0,
        digits_only(s),
    ensures
        text::decimal_number(s) == if text::decimal_value(s) <= usize::MAX {
            Some(text::decimal_value(s))
        } else {
            None
        },
        text::decimal_number(seq!['+'] + s) == text::decimal_number(s),
{
    lemma_digits(s);
    assert(text::digit(s[0]));
    assert((seq!['+'] + s).drop_first() =~= s);
}

/// No number is read from anything but digits, at least one, behind at most one
/// plus sign.
pub proof fn law_a_number_is_read_from_nothing_else(s: Seq<char>)
    requires
        text::decimal_number(s) is Some,
    ensures
        exists|digits: Seq<char>|
            #[trigger] digits_only(digits) && digits.len() > 0 && (s == digits || s == seq!['+']
                + digits),
{
    let digits = if s.len() > 0 && s.first() == '+' {
        s.drop_first()
    } else {
        s
    };
    lemma_digits(digits);
    assert(s =~= digits || s =~= seq!['+'] + digits);
}

/// A number that is read is not negative and fits the machine.
pub proof fn law_a_number_is_not_negative(s: Seq<char>)
    ensures
        text::decimal_number(s) matches Some(n) ==> 0 <= n <= usize::MAX,
{
    if text::decimal_number(s) is Some {
        let digits = if s.len() > 0 && s.first() == '+' {
            s.drop_first()
        } else {
            s
        };
        lemma_value_is_not_negative(digits);
    }
}

/// Digits write no negative number.
proof fn lemma_value_is_not_negative(s: Seq<char>)
    requires
        text::all_digits(s),
    ensures
        text::decimal_value(s) >= 0,
    decreases s.len(),
{
    if s.len() > 0 {
        assert(text::digit(s[s.len() - 1]));
        lemma_value_is_not_negative(s.drop_last());
    }
}

/// A number is written in digits that write it, without leading zeros, and is
/// read back from them.
pub proof fn law_a_number_is_read_back(n: nat)
    ensures
        digits_only(text::decimal_text(n)),
        text::decimal_text(n).len() > 0,
        text::decimal_text(n).len() > 1 ==> text::decimal_text(n).first() != '0',
        text::decimal_value(text::decimal_text(n)) == n,
        n <= usize::MAX ==> text::decimal_number(text::decimal_text(n)) == Some(n as int),
    decreases n,
{
    let s = text::decimal_text(n);
    let last = ('0' as int + n % 10) as char;
    assert(seq!['0', '1', '2', '3', '4', '5', '6', '7', '8', '9'][n as int % 10] == last);
    if n < 10 {
        law_the_value_of_digits(Seq::empty(), Seq::empty(), n as int);
    } else {
        let before = text::decimal_text(n / 10);
        law_a_number_is_read_back(n / 10);
        assert(s.drop_last() =~= before);
        assert forall|i: int| 0 <= i < s.len() implies seq![
            '0', '1', '2', '3', '4', '5', '6', '7', '8', '9',
        ].contains(#[trigger] s[i]) by {
            if i < before.len() {
                assert(s[i] == before[i]);
            }
        }
        assert(s.first() == before.first());
        if before.len() == 1 {
            lemma_one_digit(before);
        }
    }
    law_a_number_is_read_from_digits(s);
}

/// One digit that writes a number above zero is not a zero.
proof fn lemma_one_digit(s: Seq<char>)
    requires
        s.len() == 1,
        text::decimal_value(s) > 0,
    ensures
        s.first() != '0',
{
    reveal_with_fuel(text::decimal_value, 2);
}

/// In an ASCII text every capital letter becomes the small one and nothing else
/// changes; any other text is what Unicode makes of it.
pub proof fn law_lower_case_changes_capitals_only(s: Seq<char>)
    ensures
        vstd::utf8::is_ascii_chars(s) ==> {
            &&& text::lowered(s).len() == s.len()
            &&& forall|i: int|
                0 <= i < s.len() ==> #[trigger] text::lowered(s)[i] as int == s[i] as int + if 65
                    <= s[i] as int <= 90 {
                    32int
                } else {
                    0int
                }
        },
        !vstd::utf8::is_ascii_chars(s) ==> text::lowered(s) == text::unicode_lower(s),
{
}

} // verus!
