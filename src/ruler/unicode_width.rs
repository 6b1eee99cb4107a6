use vstd::prelude::*;

use super::TextWidth;

verus! {

/// The column width that the `unicode-width` crate gives a character
/// outside East Asian contexts (0 for control characters).
pub uninterp spec fn char_columns(c: char) -> nat;

/// The column width of a text: the sum over its characters.
pub open spec fn display_width(text: Seq<char>) -> nat
    decreases text.len(),
{
    if text.len() == 0 {
        0
    } else {
        display_width(text.drop_last()) + char_columns(text.last())
    }
}

/// Relies on `unicode_width::UnicodeWidthStr::width`, which sums the width
/// of each character (`UnicodeWidthChar::width`, 0 where that has none).
#[verifier::external_body]
fn str_width(text: &str) -> (r: usize)
    ensures
        r as nat == display_width(text@),
        forall|i: int| 0 <= i < text@.len() ==> char_columns(#[trigger] text@[i]) <= r,
{
    unicode_width::UnicodeWidthStr::width(text)
}

/// Display width adds up over concatenation.
pub proof fn lemma_display_width_additive(a: Seq<char>, b: Seq<char>)
    ensures
        display_width(a + b) == display_width(a) + display_width(b),
    decreases b.len(),
{
    if b.len() == 0 {
        assert(a + b =~= a);
    } else {
        lemma_display_width_additive(a, b.drop_last());
        assert((a + b).drop_last() =~= a + b.drop_last());
        assert((a + b).last() == b.last());
    }
}

/// Monospace columns with East-Asian-width semantics.
#[derive(PartialEq, Eq, Clone, Copy, Debug)]
pub struct UnicodeWidth;

impl TextWidth for UnicodeWidth {
    open spec fn spec_measure(&self, text: Seq<char>) -> nat {
        display_width(text)
    }

    fn measure(&self, text: &str) -> (r: usize) {
        str_width(text)
    }
}

} // verus!
