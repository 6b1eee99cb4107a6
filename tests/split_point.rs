use unicode_wrap::ruler::unicode_width::UnicodeWidth;
use unicode_wrap::{ByteOffset, SplitPoint, WidthOffset};

#[test]
fn constructor() {
    let s = SplitPoint::new(1, 2, 3);

    assert_eq!(s.start, ByteOffset(1));
    assert_eq!(s.end, ByteOffset(2));
    assert_eq!(s.priority, WidthOffset(3));
    assert_eq!(s.glue, "\n".to_string());
    assert_eq!(s.mandatory, false);
    assert_eq!(s.enabled, true);
}

#[test]
fn score() {
    let mut s = SplitPoint::new(1, 2, 3);

    s.width = Some(WidthOffset(6));
    s.glue = "-".to_string();

    assert_eq!(s.score(&UnicodeWidth), WidthOffset(8));
}

#[test]
fn equal() {
    assert_eq!(SplitPoint::new(3, 4, 0), SplitPoint::new(3, 4, 0));
}

#[test]
fn equal_should_have_same_start() {
    assert_ne!(SplitPoint::new(2, 4, 0), SplitPoint::new(3, 4, 0));
}

#[test]
fn equal_should_have_same_end() {
    assert_ne!(SplitPoint::new(3, 5, 0), SplitPoint::new(3, 4, 0));
}

#[test]
fn equal_should_have_same_priority() {
    assert_ne!(SplitPoint::new(3, 5, 0), SplitPoint::new(3, 5, 5));
}

#[test]
fn equal_should_have_same_glue() {
    let s = SplitPoint::new(3, 5, 0);
    let mut t = SplitPoint::new(3, 5, 0);

    t.glue = "0".to_string();

    assert_ne!(s, t);
}

#[test]
fn equal_should_have_same_mandatory() {
    let s = SplitPoint::new(3, 5, 0);
    let mut t = SplitPoint::new(3, 5, 0);

    t.mandatory = true;

    assert_ne!(s, t);
}

#[test]
fn equal_should_have_same_enabled() {
    let s = SplitPoint::new(3, 5, 0);
    let mut t = SplitPoint::new(3, 5, 0);

    t.enabled = false;

    assert_ne!(s, t);
}

// Points are compared mostly in tests of generators; comparing points of
// different strings makes little sense, so the width must agree as well.
#[test]
fn equal_should_have_same_width() {
    let mut s = SplitPoint::new(3, 5, 0);
    let mut t = SplitPoint::new(3, 5, 0);

    s.width = Some(WidthOffset(4));
    t.width = Some(WidthOffset(3));

    assert_ne!(s, t);
}

#[test]
fn score_takes_priority_and_glue_into_account() {
    let mut s = SplitPoint::new(0, 1, 0);
    s.width = Some(WidthOffset(5));
    assert_eq!(s.score(&UnicodeWidth), WidthOffset(5));

    s.glue = "-\n".to_string();
    s.priority = WidthOffset(2);
    assert_eq!(s.score(&UnicodeWidth), WidthOffset(6));
}
