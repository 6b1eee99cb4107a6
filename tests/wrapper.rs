use hyphenation::{Hyphenator as _, Language, Load, Standard};
use unicode_wrap::filter::french::French;
use unicode_wrap::filter::FilterRule;
use unicode_wrap::generator::hyphenator::Hyphenator;
use unicode_wrap::generator::unicode_standard::Xi;
use unicode_wrap::generator::Generator;
use unicode_wrap::ruler::unicode_width::UnicodeWidth;
use unicode_wrap::Wrapper;

fn xi(string: &str, width: usize, prio: usize) -> Result<String, &'static str> {
    let gen = Generator::Xi(Xi { priority: prio });

    let wrapper = Wrapper::new(width, vec![gen], Vec::new(), UnicodeWidth, false).map_err(|e| e.message())?;

    wrapper.wrap(string).map_err(|e| e.message())
}

// The bundled en-US data splits "hyphenation" as hy-phen-a-tion; the cases
// below are written for hy-phen-ation, so that word is pinned.
fn corpus() -> Standard {
    let mut c = Standard::from_embedded(Language::EnglishUS).unwrap();
    c.add_exception("hyphenation".to_string(), vec![2, 6]);
    c
}

fn hyphenator(priority: usize) -> Generator {
    Generator::Hyphenator(Hyphenator { priority, corpus: corpus(), glue: "-\n".to_string() })
}

#[test]
fn width() {
    let w = Wrapper::new(5, Vec::new(), Vec::new(), UnicodeWidth, false).unwrap();
    assert_eq!(w.width(), 5);
}

#[test]
fn wrapper_basic() {
    assert_eq!(xi("ha ha ah", 3, 1), Ok("ha\nha\nah".to_string()));
}

#[test]
fn basic_zero_priority() {
    assert_eq!(xi("ha ha ah", 3, 0), Ok("ha\nha\nah".to_string()));
}

#[test]
fn basic_high_priority() {
    assert_eq!(xi("ha ha ah", 3, 99999), Ok("ha\nha\nah".to_string()));
}

#[test]
fn consecutive_spaces() {
    assert_eq!(xi("ha ha       ah", 3, 1), Ok("ha\nha\nah".to_string()));
}

#[test]
fn consecutive_spaces_and_tabs() {
    assert_eq!(xi("ha ha   \t   ah", 3, 1), Ok("ha\nha\nah".to_string()));
}

#[test]
fn nbsp() {
    assert_eq!(xi("foo b\u{A0}r baz", 6, 1), Ok("foo\nb\u{A0}r\nbaz".to_string()));
}

#[test]
fn dont_split_every_space() {
    assert_eq!(xi("foo bar baz fiend", 9, 1), Ok("foo bar\nbaz fiend".to_string()));
}

#[test]
fn width_zero() {
    assert_eq!(xi("foo bar baz", 0, 1), Err("Wrapper.width cannot be zero"));
}

#[test]
fn whitespace_should_not_be_squeezed() {
    assert_eq!(xi("foo \t a bar", 7, 1), Ok("foo \t a\nbar".to_string()));
}

#[test]
fn whitespace_should_not_be_trimmed_left_on_first_line() {
    assert_eq!(xi(" \tfoo \t  bar  ", 4, 1), Ok(" \tfoo\nbar\n  ".to_string()));
}

#[test]
fn leadingspaces_blocking_split() {
    assert_eq!(xi(" a b c", 1, 1), Ok("a\nb\nc".to_string()));
}

#[test]
fn whitespace_should_be_trimmed_on_every_line_yet_no_empty_strings_should_exist_in_output() {
    assert_eq!(xi("foo   ssss bars", 4, 1), Ok("foo\nssss\nbars".to_string()));
}

#[test]
fn dont_break_before_punctuation() {
    assert_eq!(xi("a ! b : c ? d", 2, 0), Err("No valid split point found"));
}

#[test]
fn wrapper_hyphens() {
    assert_eq!(xi("co\u{ad}ca-co‧la", 3, 1), Ok("co\u{ad}\nca-\nco‧\nla".to_string()));
}

#[test]
fn newlines_should_not_be_dropped() {
    assert_eq!(xi("co\n\n\nla", 3, 1), Ok("co\n\n\nla".to_string()));
}

#[test]
fn leading_and_trailing_newlines_should_not_be_dropped() {
    assert_eq!(xi("\ncola\n", 4, 1), Ok("\ncola\n".to_string()));
}

fn hyphenate(string: &str, width: usize) -> Result<String, &'static str> {
    let gen = hyphenator(1);

    let wrapper = Wrapper::new(width, vec![gen], Vec::new(), UnicodeWidth, false).map_err(|e| e.message())?;

    wrapper.wrap(string).map_err(|e| e.message())
}

#[test]
fn hyphenation() {
    assert_eq!(hyphenate("hyphenation", 7), Ok("hyphen-\nation".to_string()));
    assert_eq!(hyphenate("hyphenation", 6), Ok("hy-\nphen-\nation".to_string()));
    assert_eq!(hyphenate("hyphenation", 5), Ok("hy-\nphen-\nation".to_string()));
}

#[test]
fn too_short() {
    assert_eq!(hyphenate("hyphenation", 4), Err("No valid split point found"));
}

fn combine(string: &str, width: usize, hyph_prio: usize, xi_prio: usize) -> Result<String, &'static str> {
    let reverse = Wrapper::new(
        width,
        vec![Generator::Xi(Xi { priority: xi_prio }), hyphenator(hyph_prio)],
        Vec::new(),
        UnicodeWidth,
        false,
    )
    .map_err(|e| e.message())?;
    let wrapper = Wrapper::new(
        width,
        vec![hyphenator(hyph_prio), Generator::Xi(Xi { priority: xi_prio })],
        Vec::new(),
        UnicodeWidth,
        false,
    )
    .map_err(|e| e.message())?;

    let normal = wrapper.wrap(string).map_err(|e| e.message());
    let reversed = reverse.wrap(string).map_err(|e| e.message());

    assert_eq!(normal, reversed);

    normal
}

#[test]
fn combine_generators_basic() {
    assert_eq!(combine("hyphenation is key", 7, 0, 0), Ok("hyphen-\nation\nis key".to_string()));
}

#[test]
fn combine_priority() {
    assert_eq!(combine("the hyphenation is key", 7, 0, 0), Ok("the hy-\nphen-\nation\nis key".to_string()));
    assert_eq!(combine("the hyphenation is key", 7, 0, 3), Ok("the hy-\nphen-\nation\nis key".to_string()));
    assert_eq!(combine("the hyphenation is key", 7, 0, 4), Ok("the\nhyphen-\nation\nis key".to_string()));
}

fn combine_filter(string: &str, width: usize, hyph_prio: usize, xi_prio: usize) -> Result<String, &'static str> {
    let wrapper = Wrapper::new(
        width,
        vec![hyphenator(hyph_prio), Generator::Xi(Xi { priority: xi_prio })],
        vec![FilterRule::French(French)],
        UnicodeWidth,
        false,
    )
    .map_err(|e| e.message())?;
    let reverse = Wrapper::new(
        width,
        vec![Generator::Xi(Xi { priority: xi_prio }), hyphenator(hyph_prio)],
        vec![FilterRule::French(French)],
        UnicodeWidth,
        false,
    )
    .map_err(|e| e.message())?;

    let normal = wrapper.wrap(string).map_err(|e| e.message());
    let reversed = reverse.wrap(string).map_err(|e| e.message());

    assert_eq!(normal, reversed);

    normal
}

#[test]
fn married_with_filters() {
    assert_eq!(combine("hyphenation « is k »", 7, 0, 0), Ok("hyphen-\nation «\nis k »".to_string()));
    assert_eq!(combine_filter("hyphenation « is k »", 7, 0, 0), Ok("hyphen-\nation\n« is\nk »".to_string()));
}

fn breaks(string: &str, width: usize, hyph_prio: usize, xi_prio: usize) -> Result<String, &'static str> {
    let wrapper = Wrapper::new(
        width,
        vec![hyphenator(hyph_prio), Generator::Xi(Xi { priority: xi_prio })],
        Vec::new(),
        UnicodeWidth,
        true,
    )
    .map_err(|e| e.message())?;

    wrapper.wrap(string).map_err(|e| e.message())
}

#[test]
fn simple_break() {
    assert_eq!(combine("ab", 1, 0, 0), Err("No valid split point found"));
    assert_eq!(breaks("ab", 1, 0, 0), Ok("a\nb".to_string()));

    assert_eq!(combine("abc", 2, 0, 0), Err("No valid split point found"));
    assert_eq!(breaks("abc", 2, 0, 0), Ok("ab\nc".to_string()));
}

#[test]
fn combine_break() {
    assert_eq!(combine("ab cd", 1, 0, 0), Err("No valid split point found"));
    assert_eq!(breaks("ab cd", 1, 0, 0), Ok("a\nb\nc\nd".to_string()));

    assert_eq!(combine("abcd eff", 3, 0, 0), Err("No valid split point found"));
    assert_eq!(breaks("abcd eff", 3, 0, 0), Ok("abc\nd\neff".to_string()));
}

#[test]
fn combine_hyphenation() {
    assert_eq!(combine("calendula", 3, 0, 0), Err("No valid split point found"));
    assert_eq!(breaks("calendula", 3, 0, 0), Ok("cal\nen-\ndul\na".to_string()));
}
