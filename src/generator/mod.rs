pub mod hyphenator;
pub mod unicode_standard;

use vstd::prelude::*;
use vstd::string::*;

use crate::split_point::SplitPoint;

pub use self::hyphenator::Hyphenator;
pub use self::unicode_standard::Xi;

verus! {

/// A point that lies within `text` and has no width yet.
pub open spec fn lies_within(s: SplitPoint, text: &str) -> bool {
    &&& s.start.0 <= s.end.0 <= text.spec_bytes().len()
    &&& s.width is None
}

/// The shape of a freshly generated point: its span, glue, flag and
/// priority; it is enabled and has no width.
pub open spec fn has_shape(
    s: SplitPoint,
    start: int,
    end: int,
    glue: Seq<char>,
    mandatory: bool,
    priority: int,
) -> bool {
    &&& s.start.0 == start
    &&& s.end.0 == end
    &&& s.glue@ == glue
    &&& s.mandatory == mandatory
    &&& s.priority.0 == priority
    &&& s.enabled
    &&& s.width is None
}

/// A source of candidate breaks.
pub trait Generate {
    /// What a call of `opportunities` on `text` may return.
    spec fn produces(&self, text: &str, points: Seq<SplitPoint>) -> bool;

    /// The candidate breaks in `text`, in no particular order.
    fn opportunities(&self, text: &str) -> (r: Vec<SplitPoint>)
        ensures
            self.produces(text, r@),
            forall|i: int| 0 <= i < r@.len() ==> lies_within(#[trigger] r@[i], text),
    ;
}

/// The generators that this crate provides.
pub enum Generator {
    Xi(Xi),
    Hyphenator(Hyphenator),
}

impl Generate for Generator {
    open spec fn produces(&self, text: &str, points: Seq<SplitPoint>) -> bool {
        match self {
            Generator::Xi(g) => g.produces(text, points),
            Generator::Hyphenator(g) => g.produces(text, points),
        }
    }

    fn opportunities(&self, text: &str) -> (r: Vec<SplitPoint>) {
        match self {
            Generator::Xi(g) => g.opportunities(text),
            Generator::Hyphenator(g) => g.opportunities(text),
        }
    }
}

} // verus!
