pub mod unicode_width;

use vstd::prelude::*;

verus! {

/// A measure of displayed width.
pub trait TextWidth {
    /// The width of a fragment; an implementation is expected to be additive
    /// over grapheme clusters and to give 0 for the empty fragment.
    spec fn spec_measure(&self, text: Seq<char>) -> nat;

    fn measure(&self, text: &str) -> (r: usize)
        ensures
            r as nat == self.spec_measure(text@),
    ;
}

} // verus!
