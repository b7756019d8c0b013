//! What holds of every script that names a file.
use vstd::prelude::*;

use crate::gog::path;
use crate::gog::script;
use crate::gog::script_laws;
use crate::gog::script_laws::Piece;
use crate::gog::script_laws::Written;
use crate::gog::start;
use crate::gog::start::Start;
use crate::text;
use crate::text_laws;

verus! {

/// Whether `name` is one of the two functions whose calls name a file.
pub open spec fn names_a_file(name: Seq<char>) -> bool {
    name == "before_install"@ || name == "before_install_dependency"@
}

/// Whether `path` is `given` with `/` in place of every `\`.
pub open spec fn is_given_path(path: Seq<char>, given: Seq<char>) -> bool {
    &&& path.len() == given.len()
    &&& forall|i: int|
        0 <= i < given.len() ==> #[trigger] path[i] == if given[i] == '\\' {
            '/'
        } else {
            given[i]
        }
}

/// Either name begins with a letter, and the longer one goes on behind the
/// shorter.
proof fn lemma_names()
    ensures
        forall|name: Seq<char>|
            #[trigger] names_a_file(name) ==> name.len() > 0 && !text::white_space(name.first()),
        "before_install"@.len() == 14,
        "before_install"@.is_prefix_of("before_install_dependency"@),
        "before_install_dependency"@.len() > 14,
        "before_install_dependency"@[14] == '_',
{
    reveal_strlit("before_install");
    reveal_strlit("before_install_dependency");
    assert("before_install_dependency"@.subrange(0, 14) =~= "before_install"@);
}

/// A call to the function with the longer name is none to the other.
proof fn lemma_one_name(code: Seq<char>)
    requires
        script::call(code, "before_install_dependency"@) is Some,
    ensures
        script::call(code, "before_install"@) is None,
{
    lemma_names();
    let short = "before_install"@;
    let long = "before_install_dependency"@;
    let from_name = text::trimmed_start(code);
    assert(from_name[14] == long[14]);
    let rest = from_name.skip(14);
    assert(rest.first() == '_');
}

/// The arguments of a call to either function are those that count.
proof fn lemma_marker(code: Seq<char>, name: Seq<char>)
    requires
        names_a_file(name),
        script::call(code, name) is Some,
    ensures
        start::marker_arguments(code) == script::call(code, name),
{
    if name != "before_install"@ {
        lemma_one_name(code);
    }
}

/// A call to either function names a file if it gives it a path, in its second
/// argument. The path keeps everything but its `\` separators, the checksum is
/// the first argument in lower case, and the third says how many parts there
/// are: one, where there is none, or none that writes a number above zero.
pub proof fn law_a_call_says_what_its_arguments_say(
    code: Seq<char>,
    name: Seq<char>,
    arguments: Seq<Seq<char>>,
)
    requires
        names_a_file(name),
        script::call(code, name) == Some(arguments),
    ensures
        start::started_by(code) is Some <==> arguments.len() >= 2 && arguments[1].len() > 0,
        start::started_by(code) matches Some(file) ==> {
            &&& is_given_path(file.path, arguments[1])
            &&& file.checksum == Some(text::lowered(arguments[0]))
            &&& arguments.len() == 2 ==> file.parts == 1
            &&& arguments.len() > 2 ==> match text::decimal_number(arguments[2]) {
                Some(n) => file.parts == if n == 0 {
                    1
                } else {
                    n
                },
                None => file.parts == 1,
            }
        },
{
    lemma_marker(code, name);
    if arguments.len() > 2 {
        if let Some(n) = text::decimal_number(arguments[2]) {
            text_laws::law_a_number_is_not_negative(arguments[2]);
        }
    }
}

/// A script that calls neither function names no file.
pub proof fn law_no_other_script_names_a_file(code: Seq<char>)
    ensures
        start::started_by(code) is Some ==> exists|name: Seq<char>|
            #[trigger] names_a_file(name) && script::call(code, name) is Some,
{
    assert(names_a_file("before_install"@));
    assert(names_a_file("before_install_dependency"@));
}

/// A call whose third argument writes a number has that many parts, whichever
/// of the two functions it calls and whatever arguments follow.
pub proof fn law_the_part_count_is_the_number_given(
    code: Seq<char>,
    name: Seq<char>,
    arguments: Seq<Seq<char>>,
    n: nat,
)
    requires
        names_a_file(name),
        script::call(code, name) == Some(arguments),
        arguments.len() >= 3,
        arguments[1].len() > 0,
        arguments[2] == text::decimal_text(n),
        1 <= n <= usize::MAX,
    ensures
        start::started_by(code) is Some,
        start::started_by(code)->0.parts == n,
{
    law_a_call_says_what_its_arguments_say(code, name, arguments);
    text_laws::law_a_number_is_read_back(n);
}

/// What is read of a file is seen as it is, field by field.
pub proof fn law_a_start_is_seen_as_it_is(file: Start)
    ensures
        file.deep_view().path == file.path@,
        file.deep_view().checksum == match file.checksum {
            Some(checksum) => Some(checksum@),
            None => None,
        },
        file.deep_view().parts == file.parts,
        file@ == file.deep_view(),
{
}

/// The two functions say the same of a file.
pub proof fn law_either_name_says_the_same(
    before: Seq<char>,
    between: Seq<char>,
    body: Seq<char>,
)
    requires
        text_laws::blank(before),
        text_laws::blank(between),
    ensures
        start::started_by(before + "before_install_dependency"@ + between + seq!['('] + body)
            == start::started_by(before + "before_install"@ + between + seq!['('] + body),
{
    lemma_names();
    let short = "before_install"@;
    let long = "before_install_dependency"@;
    assert(names_a_file(short) && names_a_file(long));
    let a = before + short + between + seq!['('] + body;
    let b = before + long + between + seq!['('] + body;
    script_laws::law_a_call_is_read_behind_its_parenthesis(before, short, between, body);
    script_laws::law_a_call_is_read_behind_its_parenthesis(before, long, between, body);
    if script::argument_list(body) is Some {
        lemma_marker(a, short);
        lemma_marker(b, long);
    } else {
        lemma_other_name(before, between, body);
    }
}

/// Where one function is called, the other is not.
proof fn lemma_other_name(before: Seq<char>, between: Seq<char>, body: Seq<char>)
    requires
        text_laws::blank(before),
        text_laws::blank(between),
    ensures
        script::call(
            before + "before_install"@ + between + seq!['('] + body,
            "before_install_dependency"@,
        ) is None,
        script::call(
            before + "before_install_dependency"@ + between + seq!['('] + body,
            "before_install"@,
        ) is None,
{
    lemma_names();
    let short = "before_install"@;
    let long = "before_install_dependency"@;
    assert(names_a_file(short) && names_a_file(long));
    let a = short + between + seq!['('] + body;
    let b = long + between + seq!['('] + body;
    assert(before + short + between + seq!['('] + body =~= before + a);
    assert(before + long + between + seq!['('] + body =~= before + b);
    assert(a.first() == short.first());
    assert(b.first() == long.first());
    text_laws::law_trimming_the_start_takes_the_blank_off(before, a);
    text_laws::law_trimming_the_start_takes_the_blank_off(before, b);
    if long.is_prefix_of(a) {
        assert(a[14] == long[14]);
        if between.len() > 0 {
            assert(a[14] == between[0]);
        } else {
            assert(a[14] == '(');
        }
    }
    assert(b.skip(14).first() == long[14]);
}

/// A written call is read back: the path and the checksum that were written,
/// however they were written, and as many parts as the third argument says.
pub proof fn law_a_written_call_is_read_back(
    before: Seq<char>,
    name: Seq<char>,
    between: Seq<char>,
    forms: Seq<Written>,
    behind: Seq<char>,
)
    requires
        names_a_file(name),
        text_laws::blank(before),
        text_laws::blank(between),
        forms.len() >= 2,
        forall|i: int| 0 <= i < forms.len() ==> script_laws::fits(#[trigger] forms[i]),
        script_laws::written(forms.last()).len() > 0,
        script_laws::meaning(forms[1]).len() > 0,
    ensures
        ({
            let code = before + name + between + seq!['('] + (script_laws::written_list(forms)
                + seq![')'] + behind);
            &&& start::started_by(code) is Some
            &&& is_given_path(start::started_by(code)->0.path, script_laws::meaning(forms[1]))
            &&& start::started_by(code)->0.checksum == Some(
                text::lowered(script_laws::meaning(forms[0])),
            )
            &&& forms.len() == 2 ==> start::started_by(code)->0.parts == 1
            &&& forms.len() > 2 ==> match text::decimal_number(script_laws::meaning(forms[2])) {
                Some(n) => start::started_by(code)->0.parts == if n == 0 {
                    1
                } else {
                    n
                },
                None => start::started_by(code)->0.parts == 1,
            }
        }),
{
    lemma_names();
    let body = script_laws::written_list(forms) + seq![')'] + behind;
    let code = before + name + between + seq!['('] + body;
    script_laws::law_a_call_is_read_behind_its_parenthesis(before, name, between, body);
    script_laws::law_written_arguments_are_read_back(forms, behind);
    law_a_call_says_what_its_arguments_say(code, name, script_laws::meanings(forms));
}

/// Text in quotes can stand behind white space, or nothing.
proof fn lemma_quoted_form(before: Seq<char>, s: Seq<char>) -> (form: Written)
    requires
        text_laws::blank(before),
    ensures
        script_laws::fits(form),
        script_laws::written(form) == before + script_laws::in_quotes(s),
        script_laws::meaning(form) == s,
{
    let pieces = seq![Piece::Quoted(s)];
    let form = Written { before, pieces, after: Seq::empty() };
    reveal_with_fuel(script_laws::pieces_text, 2);
    reveal_with_fuel(script_laws::pieces_meaning, 2);
    assert(script_laws::pieces_text(pieces) =~= script_laws::in_quotes(s));
    assert(script_laws::pieces_meaning(pieces) =~= s);
    assert(script_laws::in_quotes(s).first() == '\'');
    assert(script_laws::in_quotes(s).last() == '\'');
    assert(script_laws::written(form) =~= before + script_laws::in_quotes(s));
    form
}

/// A number can stand behind white space, or nothing.
proof fn lemma_number_form(before: Seq<char>, n: nat) -> (form: Written)
    requires
        text_laws::blank(before),
    ensures
        script_laws::fits(form),
        script_laws::written(form) == before + text::decimal_text(n),
        script_laws::meaning(form) == text::decimal_text(n),
{
    let s = text::decimal_text(n);
    let pieces = seq![Piece::Bare(s)];
    let form = Written { before, pieces, after: Seq::empty() };
    text_laws::law_a_number_is_read_back(n);
    reveal_with_fuel(script_laws::pieces_text, 2);
    reveal_with_fuel(script_laws::pieces_meaning, 2);
    let digits = seq!['0', '1', '2', '3', '4', '5', '6', '7', '8', '9'];
    assert forall|i: int| 0 <= i < s.len() implies {
        &&& !text::white_space(#[trigger] s[i])
        &&& s[i] != '\''
        &&& s[i] != ','
        &&& s[i] != ')'
    } by {
        assert(digits.contains(s[i]));
    }
    assert(s.first() == s[0] && s.last() == s[s.len() - 1]);
    assert(script_laws::bare(s));
    assert(script_laws::pieces_text(pieces) =~= s);
    assert(script_laws::pieces_meaning(pieces) =~= s);
    assert(script_laws::written(form) =~= before + s);
    form
}

/// How three arguments are written.
proof fn lemma_three_written(first: Written, second: Written, third: Written)
    ensures
        script_laws::written_list(seq![first, second, third]) == script_laws::written(first) + seq![
            ',',
        ] + (script_laws::written(second) + seq![','] + script_laws::written(third)),
{
    assert(seq![first, second, third].drop_first() =~= seq![second, third]);
    assert(seq![second, third].drop_first() =~= seq![third]);
    reveal_with_fuel(script_laws::written_list, 4);
}

/// How a call with three arguments is written.
proof fn lemma_three_joined(
    name: Seq<char>,
    a: Seq<char>,
    b: Seq<char>,
    c: Seq<char>,
    behind: Seq<char>,
)
    ensures
        Seq::<char>::empty() + name + Seq::<char>::empty() + seq!['('] + ((a + seq![','] + ((seq![
            ' ',
        ] + b) + seq![','] + (seq![' '] + c))) + seq![')'] + behind) == name + seq!['('] + a
            + seq![',', ' '] + b + seq![',', ' '] + c + seq![')'] + behind,
{
    let none = Seq::<char>::empty();
    let comma = seq![',', ' '];
    assert(none + name + none =~= name);
    assert(seq![','] + (seq![' '] + c) =~= comma + c);
    assert((seq![' '] + b) + seq![','] + (seq![' '] + c) =~= seq![' '] + (b + comma + c));
    assert(a + seq![','] + (seq![' '] + (b + comma + c)) =~= a + comma + b + comma + c);
    assert(name + seq!['('] + ((a + comma + b + comma + c) + seq![')'] + behind) =~= name + seq![
        '(',
    ] + a + comma + b + comma + c + seq![')'] + behind);
}

/// The call as an installer writes it, `before_install('<id>', '<path>', <n>)`,
/// is read back: the id in lower case is the checksum, the path keeps everything
/// but its separators, and there are as many parts as the call says.
pub proof fn law_the_usual_call_is_read_back(
    name: Seq<char>,
    id: Seq<char>,
    given: Seq<char>,
    n: nat,
    behind: Seq<char>,
)
    requires
        names_a_file(name),
        given.len() > 0,
        n <= usize::MAX,
    ensures
        ({
            let code = name + seq!['('] + script_laws::in_quotes(id) + seq![',', ' ']
                + script_laws::in_quotes(given) + seq![',', ' '] + text::decimal_text(n) + seq![')']
                + behind;
            &&& start::started_by(code) is Some
            &&& start::started_by(code)->0.checksum == Some(text::lowered(id))
            &&& start::started_by(code)->0.path == path::normalized(given)
            &&& is_given_path(start::started_by(code)->0.path, given)
            &&& start::started_by(code)->0.parts == if n == 0 {
                1
            } else {
                n as int
            }
        }),
{
    let none = Seq::<char>::empty();
    let space = seq![' '];
    let first = lemma_quoted_form(none, id);
    let second = lemma_quoted_form(space, given);
    let third = lemma_number_form(space, n);
    let forms = seq![first, second, third];
    text_laws::law_a_number_is_read_back(n);
    law_a_written_call_is_read_back(none, name, none, forms, behind);
    lemma_three_written(first, second, third);
    lemma_three_joined(
        name,
        script_laws::in_quotes(id),
        script_laws::in_quotes(given),
        text::decimal_text(n),
        behind,
    );
    let code = name + seq!['('] + script_laws::in_quotes(id) + seq![',', ' ']
        + script_laws::in_quotes(given) + seq![',', ' '] + text::decimal_text(n) + seq![')']
        + behind;
    assert(none + script_laws::in_quotes(id) =~= script_laws::in_quotes(id));
    assert(start::started_by(code)->0.path =~= path::normalized(given));
}

} // verus!
