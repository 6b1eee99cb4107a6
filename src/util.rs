use vstd::prelude::*;

verus! {

/// The characters with the Unicode `Ws` property that may be elided at a
/// soft break. No-break spaces are deliberately absent.
pub open spec fn is_break_space(c: char) -> bool {
    c == '\u{0009}' || c == '\u{0020}' || c == '\u{1680}' || ('\u{2000}' <= c && c <= '\u{200A}')
        || c == '\u{2028}' || c == '\u{205F}' || c == '\u{3000}'
}

/// Whether `c` is a space that a soft break may swallow.
pub fn char_is_whitespace(c: &char) -> (r: bool)
    ensures
        r == is_break_space(*c),
{
    let c = *c;
    c == '\u{0009}' || c == '\u{0020}' || c == '\u{1680}' || ('\u{2000}' <= c && c <= '\u{200A}')
        || c == '\u{2028}' || c == '\u{205F}' || c == '\u{3000}'
}

} // verus!
