pub mod french;

use vstd::prelude::*;

use crate::split_point::SplitPoint;

pub use self::french::French;

verus! {

/// `b` is `a` with some points disabled: same length, every other field
/// kept, and no point enabled that was not before.
pub open spec fn only_disables(a: Seq<SplitPoint>, b: Seq<SplitPoint>) -> bool {
    &&& a.len() == b.len()
    &&& forall|i: int|
        0 <= i < a.len() ==> {
            &&& (#[trigger] b[i]).start == a[i].start
            &&& b[i].end == a[i].end
            &&& b[i].glue == a[i].glue
            &&& b[i].mandatory == a[i].mandatory
            &&& b[i].priority == a[i].priority
            &&& b[i].width == a[i].width
            &&& (b[i].enabled ==> a[i].enabled)
        }
}

/// A veto on candidate breaks.
pub trait Filter {
    /// The points after the filter has run over them.
    spec fn spec_run(&self, text: &str, splits: Seq<SplitPoint>) -> Seq<SplitPoint>;

    /// Disables the points that the filter forbids; nothing else changes.
    fn run(&self, text: &str, splits: &mut Vec<SplitPoint>)
        ensures
            final(splits)@ == self.spec_run(text, old(splits)@),
            only_disables(old(splits)@, final(splits)@),
    ;
}

/// The filters that this crate provides.
pub enum FilterRule {
    French(French),
}

impl Filter for FilterRule {
    open spec fn spec_run(&self, text: &str, splits: Seq<SplitPoint>) -> Seq<SplitPoint> {
        match self {
            FilterRule::French(f) => f.spec_run(text, splits),
        }
    }

    fn run(&self, text: &str, splits: &mut Vec<SplitPoint>) {
        match self {
            FilterRule::French(f) => f.run(text, splits),
        }
    }
}

/// The points after each filter in turn has run.
pub open spec fn run_all(filters: Seq<FilterRule>, text: &str, splits: Seq<SplitPoint>) -> Seq<
    SplitPoint,
>
    decreases filters.len(),
{
    if filters.len() == 0 {
        splits
    } else {
        filters.last().spec_run(text, run_all(filters.drop_last(), text, splits))
    }
}

} // verus!
