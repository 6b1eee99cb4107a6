use unicode_wrap::util::char_is_whitespace;

#[test]
fn char_is_whitespace_space() {
    assert!(char_is_whitespace(&' '));
}

#[test]
fn char_is_whitespace_excludes_no_break_spaces() {
    assert!(char_is_whitespace(&'\t'));
    assert!(char_is_whitespace(&'\u{2005}'));
    assert!(char_is_whitespace(&'\u{3000}'));
    assert!(!char_is_whitespace(&'\u{A0}'));
    assert!(!char_is_whitespace(&'\u{202F}'));
    assert!(!char_is_whitespace(&'\n'));
    assert!(!char_is_whitespace(&'a'));
}
