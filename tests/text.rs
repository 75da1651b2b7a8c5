use txlog_explorer::command::parse_jump;
use txlog_explorer::text::{chars_of, contains_chars, join_from, split_chars};

fn cs(s: &str) -> Vec<char> {
    s.chars().collect()
}

#[test]
fn split_keeps_empty_pieces() {
    let parts = split_chars(&cs("a,,b,"), ',');
    assert_eq!(parts, vec![cs("a"), cs(""), cs("b"), cs("")]);
    assert_eq!(split_chars(&cs(""), ','), vec![cs("")]);
}

#[test]
fn join_puts_separators_between() {
    let parts = vec![cs("x"), cs("y"), cs(""), cs("z")];
    assert_eq!(join_from(&parts, 1, ' '), cs("y  z"));
    assert_eq!(join_from(&parts, 4, ' '), cs(""));
}

#[test]
fn substring_search() {
    assert!(contains_chars(&cs("do_alloc_bits"), &cs("alloc")));
    assert!(contains_chars(&cs("abc"), &cs("")));
    assert!(!contains_chars(&cs("allo"), &cs("alloc")));
    assert!(contains_chars(&cs("aab"), &cs("ab")));
}

#[test]
fn chars_of_keeps_every_character() {
    assert_eq!(chars_of("héllo"), cs("héllo"));
    assert_eq!(chars_of(""), cs(""));
}

#[test]
fn jump_counts() {
    assert_eq!(parse_jump(&cs("42")), Some(42));
    assert_eq!(parse_jump(&cs("+0")), Some(0));
    assert_eq!(parse_jump(&cs("+")), None);
    assert_eq!(parse_jump(&cs("4x")), None);
    assert_eq!(parse_jump(&cs("18446744073709551615")), Some(usize::MAX));
    assert_eq!(parse_jump(&cs("18446744073709551616")), None);
}
