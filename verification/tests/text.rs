use inno::gog::path::{normalize, split_root};
use inno::gog::script::call_arguments;
use inno::gog::start::start_of_file;
use inno::text::{characters, find, is_white_space, parse_number, push_decimal, skip_white_space};
use inno::text::{stands_at, text_of, trim};

fn arguments(code: &str) -> Option<Vec<String>> {
    call_arguments(code, "f")
}

#[test]
fn white_space_is_what_the_standard_library_says_it_is() {
    for c in '\0'..=char::MAX {
        assert_eq!(is_white_space(c), c.is_whitespace(), "{:?}", c);
    }
}

#[test]
fn trimming_takes_white_space_off_both_ends_only() {
    for s in ["", " ", "a", " a b\t", "\u{3000}x\u{85}", "\u{200b}x"] {
        assert_eq!(text_of(trim(&characters(s))), s.trim());
    }
    assert_eq!(skip_white_space(&characters("a  b"), 1), 3);
    assert_eq!(skip_white_space(&characters("   "), 0), 3);
}

#[test]
fn text_is_its_characters() {
    assert_eq!(characters("aé'"), ['a', 'é', '\'']);
    assert_eq!(text_of(&['a', 'é', '\'']), "aé'");
    assert_eq!(find(&characters("a}b}"), 2, '}'), Some(1));
    assert_eq!(find(&characters("a}b"), 2, '}'), None);
    assert!(stands_at(&characters("xab"), 1, &characters("ab")));
    assert!(!stands_at(&characters("xab"), 1, &characters("abc")));
    assert!(!stands_at(&characters("xac"), 1, &characters("ab")));
}

#[test]
fn numbers_are_read_as_the_standard_library_reads_them() {
    for s in [
        "", "+", "-", "0", "-0", "+5", "++5", "007", "42", "4 2", " 1", "1 ", "1_0", "0x1", "1.0",
        "18446744073709551615", "18446744073709551616", "00000000000000000000000000000000001",
        "99999999999999999999999999", "\u{663}",
    ] {
        assert_eq!(parse_number(&characters(s)), s.parse::<usize>().ok(), "{:?}", s);
    }
}

#[test]
fn numbers_are_written_in_decimal() {
    for n in [0, 7, 10, 1009, usize::MAX] {
        let mut text = String::from("n=");
        push_decimal(&mut text, n);
        assert_eq!(text, format!("n={}", n));
    }
}

#[test]
fn a_call_without_arguments_has_none() {
    assert_eq!(arguments("f()").unwrap(), Vec::<String>::new());
    assert_eq!(arguments("f( )").unwrap(), [""]);
    assert_eq!(arguments("f('')").unwrap(), [""]);
    assert_eq!(arguments("f(,)").unwrap(), [""]);
    assert_eq!(arguments("f(a,)").unwrap(), ["a"]);
    assert_eq!(arguments("f(a, )").unwrap(), ["a", ""]);
    assert_eq!(arguments("f(,a)").unwrap(), ["", "a"]);
}

#[test]
fn separators_inside_quotes_are_text() {
    assert_eq!(arguments("f('a,b)', c)").unwrap(), ["a,b)", "c"]);
    assert_eq!(arguments("f('''')").unwrap(), ["'"]);
    assert_eq!(arguments("f('a'',')").unwrap(), ["a',"]);
    assert_eq!(arguments("f('a' 'b'c)").unwrap(), ["a bc"]);
    assert_eq!(arguments("f(' a ')").unwrap(), [" a "]);
    assert_eq!(arguments("f(  ' a '\t, b c )").unwrap(), [" a ", "b c"]);
    assert_eq!(arguments("f( '' )").unwrap(), [""]);
}

#[test]
fn white_space_may_stand_around_the_name() {
    assert_eq!(arguments(" \t f \n (1)").unwrap(), ["1"]);
    assert!(arguments("g f(1)").is_none());
    assert!(arguments("f").is_none());
    assert!(arguments("f 1)").is_none());
    assert!(arguments("").is_none());
}

#[test]
fn what_follows_a_call_is_not_read() {
    assert_eq!(arguments("f(1) + '").unwrap(), ["1"]);
    assert_eq!(arguments("f(1)(2)").unwrap(), ["1"]);
}

#[test]
fn no_beginning_of_a_call_is_read() {
    let call = "f('a'',)', b)";
    for n in 0..call.len() {
        assert!(arguments(&call[..n]).is_none(), "{}", &call[..n]);
    }
    assert_eq!(arguments(call).unwrap(), ["a',)", "b"]);
}

#[test]
fn quoted_arguments_are_read_back() {
    for a in ["", "x", "it's", "''", "a,b", "(c)", "é", " a ", "\t"] {
        for b in ["", "y'", "'", "  "] {
            let call = format!("f('{}', '{}')", a.replace('\'', "''"), b.replace('\'', "''"));
            assert_eq!(arguments(&call).unwrap(), [a, b]);
        }
    }
}

#[test]
fn both_spellings_name_a_file() {
    let start = start_of_file("before_install('AB', 'LOCO.EXE', 2)").unwrap();
    assert_eq!(start.path, "LOCO.EXE");
    assert_eq!(start.checksum.as_deref(), Some("ab"));
    assert_eq!(start.parts, 2);

    let start =
        start_of_file(r"before_install_dependency('14AFCF', '__redist\ISI\x.exe', 1)").unwrap();
    assert_eq!(start.path, "__redist/ISI/x.exe");
    assert_eq!(start.checksum.as_deref(), Some("14afcf"));
    assert_eq!(start.parts, 1);

    assert!(start_of_file("after_install('5538b1', 1533091, 3117056)").is_none());
    assert!(start_of_file("before_install_other('a', 'b', 1)").is_none());
}

#[test]
fn a_script_without_a_path_names_no_file() {
    assert!(start_of_file("before_install('a')").is_none());
    assert!(start_of_file("before_install('a', '', 1)").is_none());
    assert!(start_of_file("before_install('a', , 1)").is_none());
    assert_eq!(start_of_file("before_install('a', ' ', 1)").unwrap().path, " ");
    assert!(start_of_file("before_install()").is_none());
}

#[test]
fn a_part_count_that_cannot_be_read_is_one() {
    for (count, parts) in [
        ("", 1),
        (", x", 1),
        (", -2", 1),
        (", 0", 1),
        (", 00", 1),
        (", ''", 1),
        (", 99999999999999999999", 1),
        (", +3", 3),
        (", '4'", 4),
        (", 5, 6", 5),
    ] {
        let script = format!("before_install('a', 'b'{})", count);
        assert_eq!(start_of_file(&script).unwrap().parts, parts, "{}", script);
    }
}

#[test]
fn an_id_beyond_ascii_is_in_lower_case_too() {
    let start = start_of_file("before_install('ÀÉΣ', 'b', 1)").unwrap();
    assert_eq!(start.checksum.unwrap(), "ÀÉΣ".to_lowercase());
}

#[test]
fn separators_become_slashes_and_nothing_else_changes() {
    assert_eq!(normalize(r"a\b/c\\é"), "a/b/c//é");
    assert_eq!(normalize(&normalize(r"a\b")), "a/b");
    assert_eq!(normalize(""), "");
}

#[test]
fn a_directory_constant_is_split_off() {
    let split = |s: &str| {
        let (root, path) = split_root(s);
        (root.unwrap_or_else(|| String::from("none")), path)
    };
    let pair = |a: &str, b: &str| (String::from(a), String::from(b));
    assert_eq!(split(r"{app}\Data\x.dat"), pair("app", "Data/x.dat"));
    assert_eq!(split("{app}/Data/x.dat"), pair("app", "Data/x.dat"));
    assert_eq!(split("{app}x"), pair("app", "x"));
    assert_eq!(split(r"{app}\\x"), pair("app", "/x"));
    assert_eq!(split("{app}"), pair("app", ""));
    assert_eq!(split(r"{app}\"), pair("app", ""));
    assert_eq!(split("{}x"), pair("", "x"));
    assert_eq!(split("{a{b}c}d"), pair("a{b", "c}d"));
    assert_eq!(split(r"{app\x"), pair("none", "{app/x"));
    assert_eq!(split(r"x\{app}"), pair("none", "x/{app}"));
    assert_eq!(split(""), pair("none", ""));
}
