use unicode_wrap::coordinates::coordinates;
use unicode_wrap::filter::FilterRule;
use unicode_wrap::generator::unicode_standard::Xi;
use unicode_wrap::generator::Generator;
use unicode_wrap::ruler::unicode_width::UnicodeWidth;
use unicode_wrap::ruler::TextWidth;
use unicode_wrap::{ByteOffset, ConfigError, SplitPoint, WidthOffset, WrapError, Wrapper};

fn xi_wrapper(width: usize, break_word: bool) -> Wrapper<UnicodeWidth> {
    Wrapper::new(width, vec![Generator::Xi(Xi { priority: 1 })], Vec::<FilterRule>::new(), UnicodeWidth, break_word)
        .unwrap()
}

fn columns(s: &str) -> usize {
    UnicodeWidth.measure(s)
}

#[test]
fn empty_input_returns_empty() {
    assert_eq!(xi_wrapper(3, false).wrap(""), Ok(String::new()));
    assert_eq!(xi_wrapper(1, true).wrap(""), Ok(String::new()));
}

#[test]
fn fitting_input_is_returned_unchanged() {
    let w = Wrapper::new(20, Vec::new(), Vec::new(), UnicodeWidth, false).unwrap();
    assert_eq!(w.wrap("no generators needed"), Ok("no generators needed".to_string()));
}

#[test]
fn width_one_breaks_every_grapheme() {
    let w = Wrapper::new(1, Vec::new(), Vec::new(), UnicodeWidth, true).unwrap();
    assert_eq!(w.wrap("abcd"), Ok("a\nb\nc\nd".to_string()));
    assert_eq!(w.wrap("ae\u{301}o"), Ok("a\ne\u{301}\no".to_string()));
}

#[test]
fn no_breakable_position_fails() {
    assert_eq!(xi_wrapper(3, false).wrap("abcdef"), Err(WrapError::NoValidBreak));
    assert_eq!(WrapError::NoValidBreak.message(), "No valid split point found");
}

#[test]
fn break_word_cuts_inside_words() {
    assert_eq!(xi_wrapper(2, true).wrap("abc"), Ok("ab\nc".to_string()));
}

#[test]
fn wide_cluster_stays_whole() {
    // Each ideograph takes two columns.
    let w = Wrapper::new(1, Vec::new(), Vec::new(), UnicodeWidth, true).unwrap();
    let out = w.wrap("\u{4E00}\u{4E8C}").unwrap();
    let lines: Vec<&str> = out.split('\n').filter(|l| !l.is_empty()).collect();
    assert_eq!(lines, vec!["\u{4E00}", "\u{4E8C}"]);
}

#[test]
fn set_width_refuses_zero() {
    let mut w = xi_wrapper(4, false);
    assert_eq!(w.set_width(0), Err(ConfigError::WidthZero));
    assert_eq!(w.width(), 4);
    assert_eq!(w.set_width(9), Ok(()));
    assert_eq!(w.width(), 9);
    assert_eq!(w.wrap("foo bar baz fiend"), Ok("foo bar\nbaz fiend".to_string()));
    assert_eq!(ConfigError::WidthZero.message(), "Wrapper.width cannot be zero");
}

#[test]
fn new_refuses_zero_width() {
    assert!(matches!(Wrapper::new(0, Vec::new(), Vec::new(), UnicodeWidth, true), Err(ConfigError::WidthZero)));
}

#[test]
fn wrap_with_given_points() {
    let w = Wrapper::new(4, Vec::new(), Vec::new(), UnicodeWidth, false).unwrap();
    let mut hyphen = SplitPoint::new(3, 3, 0);
    hyphen.glue = "-\n".to_string();
    assert_eq!(w.wrap_with("abcdef", vec![hyphen]), Ok("abc-\ndef".to_string()));
    assert_eq!(w.wrap_with("abcdef", vec![]), Err(WrapError::NoValidBreak));
    // A point that reaches beyond the line is not taken.
    assert_eq!(w.wrap_with("abcdef", vec![SplitPoint::new(5, 5, 0)]), Err(WrapError::NoValidBreak));
}

#[test]
fn mandatory_break_wins_over_later_points() {
    let w = Wrapper::new(6, Vec::new(), Vec::new(), UnicodeWidth, false).unwrap();
    let mut hard = SplitPoint::new(1, 2, 0);
    hard.mandatory = true;
    let soft = SplitPoint::new(5, 6, 0);
    assert_eq!(w.wrap_with("a bcd efgh", vec![soft, hard]), Ok("a\nbcd\nefgh".to_string()));
}

#[test]
fn disabled_points_are_skipped() {
    let w = Wrapper::new(6, Vec::new(), Vec::new(), UnicodeWidth, false).unwrap();
    let mut off = SplitPoint::new(5, 6, 0);
    off.enabled = false;
    assert_eq!(w.wrap_with("abc de fgh", vec![SplitPoint::new(3, 4, 0), off]), Ok("abc\nde fgh".to_string()));
}

#[test]
fn coordinates_round_trip() {
    let text = "a\u{4E00}e\u{301}z";
    let (b2w, w2b, total) = coordinates(text, &UnicodeWidth).unwrap();
    assert_eq!(total, 5);
    for b in [0usize, 1, 4, 7, 8] {
        let w = ByteOffset(b).to_width(&b2w);
        assert_eq!(w.to_bytes(&w2b), ByteOffset(b));
    }
    assert_eq!(ByteOffset(2).to_width(&b2w), WidthOffset(1));
    assert_eq!(WidthOffset(2).to_bytes(&w2b), ByteOffset(1));
}

#[test]
fn emitted_width_is_conserved() {
    let input = "foo bar baz fiend";
    let out = xi_wrapper(9, false).wrap(input).unwrap();
    // One space became one newline glue of no width.
    assert_eq!(columns(&out) + 1 - columns(""), columns(input));
    assert_eq!(out.len(), input.len());
}

#[test]
fn emitted_lines_fit() {
    let input = "the quick brown fox jumps over the lazy dog";
    for width in 5..12 {
        let out = xi_wrapper(width, false).wrap(input).unwrap();
        for line in out.split('\n') {
            assert!(columns(line) <= width, "{:?} at {}", line, width);
        }
    }
}

#[test]
fn priority_is_added_to_the_score() {
    // Two breaks over the same span whose glues have no width: the one with
    // the higher priority scores higher and is taken.
    let w = Wrapper::new(4, Vec::new(), Vec::new(), UnicodeWidth, false).unwrap();
    let a = SplitPoint::new(3, 4, 0);
    let mut b = SplitPoint::new(3, 4, 1);
    b.glue = "\r\n".to_string();
    assert_eq!(w.wrap_with("abc def", vec![a, b]), Ok("abc\r\ndef".to_string()));

    let a = SplitPoint::new(3, 4, 2);
    let mut b = SplitPoint::new(3, 4, 1);
    b.glue = "\r\n".to_string();
    assert_eq!(w.wrap_with("abc def", vec![a, b]), Ok("abc\ndef".to_string()));
}

#[test]
fn mandatory_break_that_keeps_the_column_is_taken() {
    assert_eq!(xi_wrapper(3, false).wrap("co\n\n\nla x"), Ok("co\n\n\nla\nx".to_string()));
    assert_eq!(xi_wrapper(3, true).wrap("co\n\n\nla x"), Ok("co\n\n\nla\nx".to_string()));
}
