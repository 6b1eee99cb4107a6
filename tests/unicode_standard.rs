use unicode_wrap::generator::unicode_standard::Xi;
use unicode_wrap::generator::Generate;
use unicode_wrap::SplitPoint;

fn end(start: usize, stop: usize, prio: usize) -> SplitPoint {
    let mut result = SplitPoint::new(start, stop, prio);
    result.glue = "".to_string();
    result.mandatory = true;

    result
}

#[test]
fn unicode_standard_basic() {
    assert_eq!(Xi { priority: 0 }.opportunities("foo bar"), vec![SplitPoint::new(3, 4, 0), end(7, 7, 0)]);
}

#[test]
fn more_spaces() {
    assert_eq!(Xi { priority: 0 }.opportunities("foo   bar"), vec![SplitPoint::new(3, 6, 0), end(9, 9, 0)]);
}

#[test]
fn no_break_space() {
    assert_eq!(Xi { priority: 0 }.opportunities("foo\u{A0}bar"), vec![end(8, 8, 0)]);
}

#[test]
fn tabstop() {
    assert_eq!(Xi { priority: 0 }.opportunities("foo\tbar"), vec![SplitPoint::new(3, 4, 0), end(7, 7, 0)]);
}

#[test]
fn unicode_standard_hyphens() {
    // \u{ad} is U+00AD SOFT HYPHEN
    assert_eq!(
        Xi { priority: 0 }.opportunities("co\u{ad}ca-co‧la"),
        vec![
            SplitPoint::new(4, 4, 0),
            SplitPoint::new(7, 7, 0),
            SplitPoint::new(12, 12, 0),
            end(14, 14, 0),
        ]
    );
}

// In the worst case, breaks like these can be forbidden with a filter.
#[test]
fn hyphen_series() {
    assert_eq!(Xi { priority: 0 }.opportunities("bin--doo"), vec![SplitPoint::new(5, 5, 0), end(8, 8, 0)]);
}

#[test]
fn newline() {
    let mut split = SplitPoint::new(3, 4, 0);
    split.mandatory = true;

    assert_eq!(Xi { priority: 0 }.opportunities("bin\ndoo"), vec![split, end(7, 7, 0)]);
}

#[test]
fn vertical_tab() {
    let mut split = SplitPoint::new(3, 4, 0);

    split.mandatory = true;
    split.glue = "\u{000B}".to_string();

    assert_eq!(Xi { priority: 0 }.opportunities("bin\u{000B}doo"), vec![split, end(7, 7, 0)]);
}

#[test]
fn form_feed() {
    let mut split = SplitPoint::new(3, 4, 0);

    split.mandatory = true;
    split.glue = "\u{000C}".to_string();

    assert_eq!(Xi { priority: 0 }.opportunities("bin\u{000C}doo"), vec![split, end(7, 7, 0)]);
}

#[test]
fn cariage_return() {
    let mut split = SplitPoint::new(3, 4, 0);

    split.mandatory = true;
    split.glue = "\u{000D}".to_string();

    assert_eq!(Xi { priority: 0 }.opportunities("bin\u{000D}doo"), vec![split, end(7, 7, 0)]);
}

#[test]
fn next_line() {
    let mut split = SplitPoint::new(3, 5, 0);

    split.mandatory = true;
    split.glue = "\u{0085}".to_string();

    assert_eq!(Xi { priority: 0 }.opportunities("bin\u{0085}doo"), vec![split, end(8, 8, 0)]);
}

#[test]
fn line_separator() {
    let mut split = SplitPoint::new(3, 6, 0);

    split.mandatory = true;
    split.glue = "\u{2028}".to_string();

    assert_eq!(Xi { priority: 0 }.opportunities("bin\u{2028}doo"), vec![split, end(9, 9, 0)]);
}

#[test]
fn paragraph_separator() {
    let mut split = SplitPoint::new(3, 6, 0);

    split.mandatory = true;
    split.glue = "\u{2029}".to_string();

    assert_eq!(Xi { priority: 0 }.opportunities("bin\u{2029}doo"), vec![split, end(9, 9, 0)]);
}

#[test]
fn consecutive_newlines_should_produce_more_than_one_splitpoint() {
    let mut split = SplitPoint::new(3, 4, 0);
    let mut split2 = SplitPoint::new(4, 5, 0);

    split.mandatory = true;
    split2.mandatory = true;

    assert_eq!(Xi { priority: 0 }.opportunities("bin\n\ndoo"), vec![split, split2, end(8, 8, 0)]);
}

#[test]
fn crlf_should_give_one_splitpoint() {
    let mut split = SplitPoint::new(3, 5, 0);

    split.mandatory = true;
    split.glue = "\r\n".to_string();

    assert_eq!(Xi { priority: 0 }.opportunities("bin\r\ndoo"), vec![split, end(8, 8, 0)]);
}

// For now the newline is marked, but not consumed.
#[test]
fn lfcrlf_shouldnt_eat_first_lf() {
    let mut split = SplitPoint::new(3, 4, 0);
    let mut split2 = SplitPoint::new(4, 6, 0);

    split.mandatory = true;
    split2.mandatory = true;

    split.glue = "\n".to_string();
    split2.glue = "\r\n".to_string();

    assert_eq!(Xi { priority: 0 }.opportunities("bin\n\r\ndoo"), vec![split, split2, end(9, 9, 0)]);
}

#[test]
fn trailing_spaces_are_kept_at_the_end() {
    let mut split = SplitPoint::new(3, 3, 2);
    split.mandatory = true;

    assert_eq!(Xi { priority: 2 }.opportunities("foo  "), vec![split]);
}

#[test]
fn empty_text_has_no_breaks() {
    assert_eq!(Xi { priority: 0 }.opportunities(""), vec![]);
}

#[test]
fn points_for_given_breaks() {
    // A soft break after the spaces, one at an inner byte of 'é' (skipped),
    // and a soft break at the end, which is taken as mandatory.
    let points = Xi { priority: 2 }.points_for("ab  é", &vec![(4, false), (5, false), (6, false)]);

    let soft = SplitPoint::new(2, 4, 2);
    let mut end = SplitPoint::new(6, 6, 2);
    end.glue = "".to_string();
    end.mandatory = true;
    assert_eq!(points, vec![soft, end]);
}
