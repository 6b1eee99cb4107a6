use unicode_wrap::filter::french::French;
use unicode_wrap::filter::Filter;
use unicode_wrap::generator::unicode_standard::Xi;
use unicode_wrap::generator::Generate;
use unicode_wrap::SplitPoint;

fn filter(text: &str) -> Vec<SplitPoint> {
    let mut opp = Xi { priority: 0 }.opportunities(&text);

    French.run(&text, &mut opp);

    opp
}

#[test]
fn dont_break_before() {
    let s = "a »";

    assert!(!filter(s)[0].enabled);
}

#[test]
fn dont_break_after() {
    let s = "« a";

    assert!(!filter(s)[0].enabled);
}

#[test]
fn dont_break_combined() {
    let s = "« a »";

    assert!(!filter(s)[0].enabled);
    assert!(!filter(s)[1].enabled);
}

#[test]
fn french_keeps_other_breaks_and_fields() {
    // "a b « c »": bytes 4..6 hold «, bytes 9..11 hold ».
    let s = "a b « c »";
    let mut points = vec![SplitPoint::new(1, 2, 0), SplitPoint::new(6, 7, 3), SplitPoint::new(8, 9, 0)];
    points[1].glue = "-".to_string();

    French.run(s, &mut points);

    assert!(points[0].enabled);
    assert!(!points[1].enabled);
    assert!(!points[2].enabled);
    assert_eq!(points[1].start.0, 6);
    assert_eq!(points[1].end.0, 7);
    assert_eq!(points[1].priority.0, 3);
    assert_eq!(points[1].glue, "-".to_string());
}
