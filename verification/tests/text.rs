use quartz::text::{
    chars_of, cut, decimal_string, fields, has_char, joined, lowered, parse_u64, replaced, same,
    string_of, stripped, trim_newline, trimmed,
};

#[test]
fn trim_newline_drops_line_breaks_and_spaces() {
    assert_eq!(trim_newline("users\n"), "users");
    assert_eq!(trim_newline("users\r\n\n"), "users");
    assert_eq!(trim_newline("  api users \t\n"), "api users");
    assert_eq!(trim_newline("\n"), "");
    assert_eq!(trim_newline(""), "");
    assert_eq!(trim_newline("a\nb"), "a\nb");
}

#[test]
fn trimmed_knows_unicode_whitespace() {
    assert_eq!(trimmed("\u{a0}x\u{2003}"), "x");
    assert_eq!(trimmed("\u{3000}\u{85}x y\u{1680}"), "x y");
    assert_eq!(trimmed("\u{200b}x"), "\u{200b}x");
    assert_eq!(trimmed(" é "), "é");
}

#[test]
fn chars_and_strings_round_trip() {
    let v = chars_of("héllo");
    assert_eq!(v, vec!['h', 'é', 'l', 'l', 'o']);
    assert_eq!(string_of(&v), "héllo");
    assert_eq!(string_of(&Vec::new()), "");
}

#[test]
fn same_compares_characters() {
    assert!(same("abc", "abc"));
    assert!(!same("abc", "abd"));
    assert!(!same("abc", "ab"));
    assert!(same("", ""));
}

#[test]
fn cut_splits_at_first_separator() {
    assert_eq!(cut("a=b=c", "="), Some(("a".to_string(), "b=c".to_string())));
    assert_eq!(cut("Accept: text/html: x", ": "), Some(("Accept".to_string(), "text/html: x".to_string())));
    assert_eq!(cut("=v", "="), Some(("".to_string(), "v".to_string())));
    assert_eq!(cut("k=", "="), Some(("k".to_string(), "".to_string())));
    assert_eq!(cut("novalue", "="), None);
    assert_eq!(cut("", "="), None);
    assert_eq!(cut("a:b", ": "), None);
}

#[test]
fn fields_splits_on_every_separator() {
    assert_eq!(fields("a/b/c", '/'), vec!["a", "b", "c"]);
    assert_eq!(fields("a//b", '/'), vec!["a", "", "b"]);
    assert_eq!(fields("/a/", '/'), vec!["", "a", ""]);
    assert_eq!(fields("", '/'), vec![""]);
    assert_eq!(fields("abc", '/'), vec!["abc"]);
}

#[test]
fn joined_puts_separator_between_parts() {
    let parts = vec!["a".to_string(), "b".to_string(), "c".to_string()];
    assert_eq!(joined(&parts, "/"), "a/b/c");
    assert_eq!(joined(&parts, "; "), "a; b; c");
    assert_eq!(joined(&vec!["only".to_string()], "/"), "only");
    assert_eq!(joined(&Vec::new(), "/"), "");
}

#[test]
fn has_char_finds_a_character() {
    assert!(has_char("a=b", '='));
    assert!(!has_char("ab", '='));
    assert!(!has_char("", '='));
}

#[test]
fn lowered_changes_ascii_letters_only() {
    assert_eq!(lowered("Content-Type"), "content-type");
    assert_eq!(lowered("X-ÀB9_z"), "x-Àb9_z");
    assert_eq!(lowered("@[`{"), "@[`{");
}

#[test]
fn replaced_turns_separators_into_dashes() {
    assert_eq!(replaced("a/b\\c", '/', '\\', '-'), "a-b-c");
    assert_eq!(replaced("abc", '/', '\\', '-'), "abc");
}

#[test]
fn stripped_drops_runs_at_both_ends() {
    assert_eq!(stripped("''it's''", '\''), "it's");
    assert_eq!(stripped("\"q\"", '"'), "q");
    assert_eq!(stripped("''''", '\''), "");
    assert_eq!(stripped("plain", '\''), "plain");
}

#[test]
fn decimal_string_writes_numbers() {
    assert_eq!(decimal_string(0), "0");
    assert_eq!(decimal_string(7), "7");
    assert_eq!(decimal_string(10), "10");
    assert_eq!(decimal_string(1700000000123456), "1700000000123456");
    assert_eq!(decimal_string(u64::MAX), "18446744073709551615");
}

#[test]
fn parse_u64_reads_numbers() {
    assert_eq!(parse_u64("0"), Some(0));
    assert_eq!(parse_u64("007"), Some(7));
    assert_eq!(parse_u64("+42"), Some(42));
    assert_eq!(parse_u64("18446744073709551615"), Some(u64::MAX));
    assert_eq!(parse_u64("18446744073709551616"), None);
    assert_eq!(parse_u64("99999999999999999999999"), None);
    assert_eq!(parse_u64(""), None);
    assert_eq!(parse_u64("+"), None);
    assert_eq!(parse_u64("-1"), None);
    assert_eq!(parse_u64("12a"), None);
    assert_eq!(parse_u64(" 12"), None);
    assert_eq!(parse_u64("1844674407370955161x"), None);
}

#[test]
fn parse_u64_agrees_with_the_standard_library() {
    for s in ["0", "1", "+5", "00", "123456789", "18446744073709551615", "18446744073709551616", "", "+", "++1", "1+", "a", "١"] {
        assert_eq!(parse_u64(s), s.parse::<u64>().ok(), "{}", s);
    }
}

#[test]
fn decimal_round_trips_through_parse() {
    for n in [0u64, 1, 9, 10, 99, 100, 12345, u64::MAX - 1, u64::MAX] {
        assert_eq!(parse_u64(&decimal_string(n)), Some(n));
    }
}
