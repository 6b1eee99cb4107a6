use hyphenation::{Hyphenator as _, Language, Load, Standard};
use unicode_wrap::generator::hyphenator::Hyphenator;
use unicode_wrap::generator::Generate;
use unicode_wrap::SplitPoint;

// The bundled en-US data splits "hyphenation" as hy-phen-a-tion; the cases
// below are written for hy-phen-ation, so that word is pinned.
fn corpus() -> Standard {
    let mut c = Standard::from_embedded(Language::EnglishUS).unwrap();
    c.add_exception("hyphenation".to_string(), vec![2, 6]);
    c
}

#[test]
fn hyphenation_basic() {
    let s = "hyphenation";
    let c = corpus();

    let mut s1 = SplitPoint::new(2, 2, 0);
    s1.glue = "-".to_string();
    let mut s2 = SplitPoint::new(6, 6, 0);
    s2.glue = "-".to_string();

    assert_eq!(Hyphenator { priority: 0, glue: "-".to_string(), corpus: c }.opportunities(&s), vec![s1, s2]);
}

#[test]
fn should_not_return_splitpoints_for_spaces() {
    let s = "hyphe nation";
    let c = corpus();

    let mut s1 = SplitPoint::new(2, 2, 0);
    s1.glue = "-".to_string();
    let mut s2 = SplitPoint::new(8, 8, 0);
    s2.glue = "-".to_string();

    assert_eq!(Hyphenator { priority: 0, glue: "-".to_string(), corpus: c }.opportunities(&s), vec![s1, s2]);
}

#[test]
fn should_not_return_existing_hyphens() {
    // \u{ad} is U+00AD SOFT HYPHEN
    let s = "co\u{ad}ca-coâ€§la";
    let c = corpus();

    assert_eq!(Hyphenator { priority: 0, glue: "-".to_string(), corpus: c }.opportunities(&s), vec![]);
}

#[test]
fn word_points_keeps_inner_boundaries_only() {
    let h = Hyphenator { priority: 4, glue: "-\n".to_string(), corpus: corpus() };
    // "héllo" at byte 10: byte 2 is inside 'é', 0 and 6 are the word's ends.
    let points = h.word_points(10, "héllo", &vec![0, 1, 2, 3, 6, 9]);

    let mut a = SplitPoint::new(11, 11, 4);
    a.glue = "-\n".to_string();
    let mut b = SplitPoint::new(13, 13, 4);
    b.glue = "-\n".to_string();
    assert_eq!(points, vec![a, b]);
}

#[test]
fn zero_end_minimum_does_not_fail() {
    let mut c = corpus();
    c.minima = (2, 0);
    let h = Hyphenator { priority: 0, glue: "-".to_string(), corpus: c };

    assert_eq!(h.opportunities("ab"), vec![]);
    assert_eq!(h.opportunities("ab cd"), vec![]);
}

#[test]
fn combining_dot_above_is_not_hyphenated() {
    let h = Hyphenator { priority: 0, glue: "-".to_string(), corpus: corpus() };

    assert_eq!(h.opportunities("hyphenati\u{307}on"), vec![]);
    assert!(!h.opportunities("HYPHENATION").is_empty());
}
