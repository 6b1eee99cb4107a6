use vstd::prelude::*;

use crate::offset::{ByteOffset, WidthOffset};
use crate::ruler::TextWidth;

verus! {

broadcast use vstd::string::group_string_axioms;

/// A potential line break in a text.
#[derive(Debug)]
pub struct SplitPoint {
    /// First byte elided by the break.
    pub start: ByteOffset,
    /// First byte of the next line.
    pub end: ByteOffset,
    /// Text inserted where the break is taken.
    pub glue: String,
    /// A forced break (a line terminator).
    pub mandatory: bool,
    /// Penalty that takes part in ordering and scoring.
    pub priority: WidthOffset,
    /// Width of the text up to `start`, plus that of the glue; filled by the
    /// wrapper.
    pub width: Option<WidthOffset>,
    /// Disabled points are never taken.
    pub enabled: bool,
}

/// The width recorded in a split point, 0 while unset.
pub open spec fn width_of(s: SplitPoint) -> int {
    match s.width {
        Some(w) => w.0 as int,
        None => 0,
    }
}

/// The score of a split point under a ruler: later points score higher, the
/// priority is added, and the width of the glue is taken off.
pub open spec fn score_of<R: TextWidth>(ruler: &R, s: SplitPoint) -> int {
    width_of(s) + s.priority.0 - ruler.spec_measure(s.glue@)
}

/// The sort key of a split point: `priority + start`, then `end`.
pub open spec fn sort_key(s: SplitPoint) -> (int, int) {
    (s.priority.0 + s.start.0, s.end.0 as int)
}

/// Strict order of split points by `sort_key`.
pub open spec fn sorts_before(a: SplitPoint, b: SplitPoint) -> bool {
    sort_key(a).0 < sort_key(b).0 || (sort_key(a).0 == sort_key(b).0 && sort_key(a).1
        < sort_key(b).1)
}

/// All fields of two split points agree.
pub open spec fn same_split(a: SplitPoint, b: SplitPoint) -> bool {
    a.start == b.start && a.end == b.end && a.priority == b.priority && a.glue@ == b.glue@
        && a.enabled == b.enabled && a.mandatory == b.mandatory && a.width == b.width
}

impl SplitPoint {
    /// An enabled, optional break over `start..end` with a newline as glue
    /// and no width yet.
    pub fn new(start: usize, end: usize, priority: usize) -> (r: SplitPoint)
        ensures
            r.start == ByteOffset(start),
            r.end == ByteOffset(end),
            r.priority == WidthOffset(priority),
            r.glue@ == seq!['\n'],
            !r.mandatory,
            r.enabled,
            r.width is None,
    {
        let glue = "\n".to_string();
        proof {
            reveal_strlit("\n");
        }
        SplitPoint {
            start: ByteOffset(start),
            end: ByteOffset(end),
            glue,
            mandatory: false,
            priority: WidthOffset(priority),
            width: None,
            enabled: true,
        }
    }

    /// `width + priority - measure(glue)`. The width must have been set.
    pub fn score<R: TextWidth>(&self, ruler: &R) -> (r: WidthOffset)
        requires
            self.width is Some,
            0 <= score_of(ruler, *self) <= usize::MAX,
        ensures
            r.0 == score_of(ruler, *self),
    {
        let g = ruler.measure(self.glue.as_str());
        match self.width {
            Some(w) => WidthOffset((w.0 as u128 + self.priority.0 as u128 - g as u128) as usize),
            None => WidthOffset(0),
        }
    }

    /// Whether `self` sorts strictly before `other`.
    pub fn sorts_before(&self, other: &SplitPoint) -> (r: bool)
        ensures
            r == sorts_before(*self, *other),
    {
        let a = self.priority.0 as u128 + self.start.0 as u128;
        let b = other.priority.0 as u128 + other.start.0 as u128;
        a < b || (a == b && self.end.0 < other.end.0)
    }
}

impl PartialEq for SplitPoint {
    fn eq(&self, other: &SplitPoint) -> (r: bool) {
        let same_width = match (self.width, other.width) {
            (Some(a), Some(b)) => a.0 == b.0,
            (None, None) => true,
            _ => false,
        };
        self.start == other.start && self.end == other.end && self.priority == other.priority
            && self.glue == other.glue && self.enabled == other.enabled && self.mandatory
            == other.mandatory && same_width
    }
}

impl vstd::std_specs::cmp::PartialEqSpecImpl for SplitPoint {
    open spec fn obeys_eq_spec() -> bool {
        true
    }

    open spec fn eq_spec(&self, other: &SplitPoint) -> bool {
        same_split(*self, *other)
    }
}

} // verus!
