//! Text as a sequence of characters: trimming, searching, reading and writing
//! decimal numbers, and lower case.
use vstd::prelude::*;

verus! {

broadcast use vstd::string::group_string_axioms;

/// `String::push` appends the given character to the end of the string.
pub assume_specification[ String::push ](s: &mut String, c: char)
    ensures
        final(s)@ == old(s)@.push(c),
;

/// The characters with the Unicode property `White_Space`.
pub open spec fn white_space(c: char) -> bool {
    ||| '\u{9}' <= c <= '\u{d}'
    ||| c == '\u{20}'
    ||| c == '\u{85}'
    ||| c == '\u{a0}'
    ||| c == '\u{1680}'
    ||| '\u{2000}' <= c <= '\u{200a}'
    ||| c == '\u{2028}'
    ||| c == '\u{2029}'
    ||| c == '\u{202f}'
    ||| c == '\u{205f}'
    ||| c == '\u{3000}'
}

/// What is left of `s` without its leading white space.
pub open spec fn trimmed_start(s: Seq<char>) -> Seq<char>
    decreases s.len(),
{
    if s.len() > 0 && white_space(s.first()) {
        trimmed_start(s.drop_first())
    } else {
        s
    }
}

/// What is left of `s` without its trailing white space.
pub open spec fn trimmed_end(s: Seq<char>) -> Seq<char>
    decreases s.len(),
{
    if s.len() > 0 && white_space(s.last()) {
        trimmed_end(s.drop_last())
    } else {
        s
    }
}

/// What is left of `s` without the white space around it.
pub open spec fn trimmed(s: Seq<char>) -> Seq<char> {
    trimmed_end(trimmed_start(s))
}

/// The index of the first `c` in `s`.
pub open spec fn position(s: Seq<char>, c: char) -> Option<int>
    decreases s.len(),
{
    if s.len() == 0 {
        None
    } else if s.first() == c {
        Some(0)
    } else {
        match position(s.drop_first(), c) {
            Some(k) => Some(k + 1),
            None => None,
        }
    }
}

/// Whether `c` is one of the ten decimal digits.
pub open spec fn digit(c: char) -> bool {
    '0' <= c <= '9'
}

/// Whether `s` is made of decimal digits alone.
pub open spec fn all_digits(s: Seq<char>) -> bool {
    forall|i: int| 0 <= i < s.len() ==> digit(#[trigger] s[i])
}

/// The number that the decimal digits of `s` write.
pub open spec fn decimal_value(s: Seq<char>) -> int
    decreases s.len(),
{
    if s.len() == 0 {
        0
    } else {
        decimal_value(s.drop_last()) * 10 + (s.last() as int - '0' as int)
    }
}

/// The number that `s` writes as decimal digits, at least one of them, behind
/// an optional plus sign. A number beyond the range of `usize` is none.
pub open spec fn decimal_number(s: Seq<char>) -> Option<int> {
    let digits = if s.len() > 0 && s.first() == '+' {
        s.drop_first()
    } else {
        s
    };
    if digits.len() > 0 && all_digits(digits) && decimal_value(digits) <= usize::MAX {
        Some(decimal_value(digits))
    } else {
        None
    }
}

/// The decimal digits of `n`, without leading zeros.
pub open spec fn decimal_text(n: nat) -> Seq<char>
    decreases n,
{
    let last = ('0' as int + n % 10) as char;
    if n < 10 {
        seq![last]
    } else {
        decimal_text(n / 10).push(last)
    }
}

/// The lower-case counterpart of an ASCII letter; any other character is its own.
pub open spec fn ascii_lower(c: char) -> char {
    if 'A' <= c <= 'Z' {
        (c as int + 32) as char
    } else {
        c
    }
}

/// What `str::to_lowercase` makes of a text that is not all ASCII.
pub uninterp spec fn unicode_lower(s: Seq<char>) -> Seq<char>;

/// The text in lower case.
pub open spec fn lowered(s: Seq<char>) -> Seq<char> {
    if vstd::utf8::is_ascii_chars(s) {
        s.map_values(|c: char| ascii_lower(c))
    } else {
        unicode_lower(s)
    }
}

/// `str::to_lowercase` returns the lower-case equivalent of a text. An ASCII
/// text keeps its length and everything but its capital letters, each of which
/// becomes the small letter. What becomes of any other text is a function of
/// the text alone and is not spelled out.
#[verifier::external_body]
pub(crate) fn lower_case(s: &str) -> (result: String)
    ensures
        result@ == if vstd::utf8::is_ascii_chars(s@) {
            s@.map_values(|c: char| ascii_lower(c))
        } else {
            unicode_lower(s@)
        },
{
    s.to_lowercase()
}

/// Tells whether `c` is white space.
pub fn is_white_space(c: char) -> (result: bool)
    ensures
        result == white_space(c),
{
    ('\u{9}' <= c && c <= '\u{d}') || c == '\u{20}' || c == '\u{85}' || c == '\u{a0}' || c
        == '\u{1680}' || ('\u{2000}' <= c && c <= '\u{200a}') || c == '\u{2028}' || c == '\u{2029}'
        || c == '\u{202f}' || c == '\u{205f}' || c == '\u{3000}'
}

/// Returns the characters of a text.
pub fn characters(s: &str) -> (result: Vec<char>)
    ensures
        result@ == s@,
{
    let mut result: Vec<char> = Vec::new();
    for c in it: s.chars()
        invariant
            it.seq() == s@,
            result@ == s@.take(it.index()),
    {
        result.push(c);
    }
    result
}

/// Returns the text made of the given characters.
pub fn text_of(characters: &[char]) -> (result: String)
    ensures
        result@ == characters@,
{
    let mut result = String::new();
    for i in 0..characters.len()
        invariant
            result@ == characters@.take(i as int),
    {
        result.push(characters[i]);
    }
    result
}

/// Returns the index at or after `from` where the white space there ends.
pub fn skip_white_space(s: &[char], from: usize) -> (result: usize)
    requires
        from <= s@.len(),
    ensures
        from <= result <= s@.len(),
        s@.skip(result as int) == trimmed_start(s@.skip(from as int)),
{
    let mut i: usize = from;
    while i < s.len() && is_white_space(s[i])
        invariant
            from <= i <= s@.len(),
            trimmed_start(s@.skip(i as int)) == trimmed_start(s@.skip(from as int)),
        decreases s@.len() - i,
    {
        assert(s@.skip(i as int).drop_first() =~= s@.skip(i + 1));
        i = i + 1;
    }
    i
}

/// Returns the given characters without the white space around them.
pub fn trim(s: &[char]) -> (result: &[char])
    ensures
        result@ == trimmed(s@),
{
    let start = skip_white_space(s, 0);
    let mut end: usize = s.len();
    assert(s@.skip(0) =~= s@);
    assert(s@.subrange(start as int, end as int) =~= s@.skip(start as int));
    while end > start && is_white_space(s[end - 1])
        invariant
            start <= end <= s@.len(),
            trimmed_end(s@.subrange(start as int, end as int)) == trimmed(s@),
        decreases end,
    {
        assert(s@.subrange(start as int, end as int).drop_last() =~= s@.subrange(
            start as int,
            end - 1,
        ));
        end = end - 1;
    }
    &s[start..end]
}

/// Tells whether `prefix` stands in `s` at index `from`.
pub fn stands_at(s: &[char], from: usize, prefix: &[char]) -> (result: bool)
    requires
        from <= s@.len(),
    ensures
        result == prefix@.is_prefix_of(s@.skip(from as int)),
{
    if s.len() - from < prefix.len() {
        return false;
    }
    for i in 0..prefix.len()
        invariant
            from + prefix@.len() <= s.len(),
            prefix@.take(i as int) =~= s@.subrange(from as int, from + i),
    {
        if s[from + i] != prefix[i] {
            assert(s@.skip(from as int)[i as int] != prefix@[i as int]);
            return false;
        }
    }
    assert(prefix@.take(prefix@.len() as int) =~= prefix@);
    assert(s@.skip(from as int).subrange(0, prefix@.len() as int) =~= prefix@);
    true
}

/// Returns the index of the first `c` at or after `from`, counted from there.
pub fn find(s: &[char], from: usize, c: char) -> (result: Option<usize>)
    requires
        from <= s@.len(),
    ensures
        match (result, position(s@.skip(from as int), c)) {
            (Some(k), Some(p)) => k == p && from + k < s@.len(),
            (None, None) => true,
            _ => false,
        },
{
    let mut i: usize = from;
    while i < s.len()
        invariant
            from <= i <= s@.len(),
            position(s@.skip(from as int), c) == match position(s@.skip(i as int), c) {
                Some(k) => Some(k + (i - from)),
                None => None::<int>,
            },
        decreases s@.len() - i,
    {
        if s[i] == c {
            return Some(i - from);
        }
        assert(s@.skip(i as int).drop_first() =~= s@.skip(i + 1));
        i = i + 1;
    }
    None
}

/// Decimal digits write a number that is not negative, and no part of them that
/// leaves digits off the end writes a larger one.
proof fn lemma_decimal_value_grows(s: Seq<char>, n: int)
    requires
        all_digits(s),
        0 <= n <= s.len(),
    ensures
        0 <= decimal_value(s.take(n)) <= decimal_value(s),
    decreases s.len(),
{
    if n == s.len() {
        assert(s.take(n) =~= s);
        if n > 0 {
            assert(digit(s[n - 1]));
            lemma_decimal_value_grows(s.drop_last(), n - 1);
            assert(s.drop_last().take(n - 1) =~= s.drop_last());
        }
    } else {
        assert(digit(s[s.len() - 1]));
        lemma_decimal_value_grows(s.drop_last(), n);
        assert(s.drop_last().take(n) =~= s.take(n));
    }
}

/// Reads a number written as decimal digits behind an optional plus sign.
pub fn parse_number(s: &[char]) -> (result: Option<usize>)
    ensures
        match (result, decimal_number(s@)) {
            (Some(n), Some(value)) => n == value,
            (None, None) => true,
            _ => false,
        },
{
    let start: usize = if s.len() > 0 && s[0] == '+' {
        1
    } else {
        0
    };
    let ghost digits = s@.skip(start as int);
    assert(start == 1 ==> digits =~= s@.drop_first());
    assert(start == 0 ==> digits =~= s@);
    if start == s.len() {
        return None;
    }
    let mut value: usize = 0;
    let mut i: usize = start;
    while i < s.len()
        invariant
            start <= i <= s@.len(),
            digits == s@.skip(start as int),
            all_digits(digits.take(i - start)),
            value == decimal_value(digits.take(i - start)),
            decimal_number(s@) == if digits.len() > 0 && all_digits(digits) && decimal_value(digits)
                <= usize::MAX {
                Some(decimal_value(digits))
            } else {
                None::<int>
            },
        decreases s@.len() - i,
    {
        let c = s[i];
        assert(digits[i - start] == c);
        if !('0' <= c && c <= '9') {
            return None;
        }
        let ghost next = digits.take(i - start + 1);
        assert(next.drop_last() =~= digits.take(i - start));
        assert(all_digits(next)) by {
            assert forall|k: int| 0 <= k < next.len() implies digit(#[trigger] next[k]) by {
                if k < i - start {
                    assert(next[k] == digits.take(i - start)[k]);
                }
            }
        }
        proof {
            if all_digits(digits) {
                lemma_decimal_value_grows(digits, i - start + 1);
            }
        }
        let d: usize = (c as u32 - '0' as u32) as usize;
        value = match value.checked_mul(10) {
            Some(tens) => match tens.checked_add(d) {
                Some(sum) => sum,
                None => return None,
            },
            None => return None,
        };
        i = i + 1;
    }
    assert(digits.take(s@.len() - start) =~= digits);
    Some(value)
}

/// Appends the decimal digits of `n` to a text.
pub fn push_decimal(text: &mut String, n: usize)
    ensures
        final(text)@ == old(text)@ + decimal_text(n as nat),
    decreases n,
{
    if n >= 10 {
        push_decimal(text, n / 10);
    }
    let d: u8 = (n % 10) as u8;
    text.push((48 + d) as char);
}

} // verus!
