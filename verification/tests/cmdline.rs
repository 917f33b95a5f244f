use swapview::chop_null;

#[test]
fn trailing_nul_stripped_and_separator_spaced() {
    assert_eq!(chop_null("foo\0bar\0".to_string()), "foo bar");
}

#[test]
fn lone_nul_becomes_empty() {
    assert_eq!(chop_null("\0".to_string()), "");
}

#[test]
fn empty_command_line_stays_empty() {
    assert_eq!(chop_null(String::new()), "");
}

#[test]
fn no_trailing_nul_means_nothing_stripped() {
    assert_eq!(chop_null("abc".to_string()), "abc");
}

#[test]
fn only_one_trailing_nul_is_stripped() {
    assert_eq!(chop_null("x\0\0".to_string()), "x ");
}

#[test]
fn internal_nuls_all_become_spaces() {
    assert_eq!(chop_null("a\0b\0c\0".to_string()), "a b c");
}

#[test]
fn non_ascii_arguments_kept() {
    assert_eq!(chop_null("h\u{e9}llo\0w\u{f6}rld\0".to_string()), "h\u{e9}llo w\u{f6}rld");
}
