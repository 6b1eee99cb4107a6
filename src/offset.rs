use std::collections::HashMap;
use vstd::prelude::*;

verus! {

broadcast use vstd::std_specs::hash::group_hash_axioms;

/// An index into the UTF-8 encoding of a text.
#[derive(PartialEq, Eq, Structural, Clone, Copy, Debug, Hash, PartialOrd, Ord)]
pub struct ByteOffset(pub usize);

/// A cumulative column count, as measured by a ruler.
#[derive(PartialEq, Eq, Structural, Clone, Copy, Debug, Hash, PartialOrd, Ord)]
pub struct WidthOffset(pub usize);

/// Lookup with downward stepping: the value stored under `k` or, failing
/// that, under the nearest smaller key, trying keys down to 1; 0 when none of
/// them is present.
pub open spec fn step_down(m: Map<usize, usize>, k: usize) -> usize
    decreases k,
{
    if m.contains_key(k) {
        m[k]
    } else if k > 1 {
        step_down(m, (k - 1) as usize)
    } else {
        0
    }
}

/// Looks `k` up in `m` with downward stepping (see `step_down`).
fn lookup_down(k: usize, m: &HashMap<usize, usize>) -> (r: usize)
    ensures
        r == step_down(m@, k),
{
    let mut probe: usize = k;
    loop
        invariant
            step_down(m@, probe) == step_down(m@, k),
        decreases probe,
    {
        match m.get(&probe) {
            Some(v) => {
                return *v;
            },
            None => {
                if probe > 1 {
                    probe = probe - 1;
                } else {
                    return 0;
                }
            },
        }
    }
}

impl ByteOffset {
    /// The width of the text up to this offset. An offset that is not a key
    /// of `b2w` (inside a grapheme cluster) resolves to the nearest key below.
    pub fn to_width(self, b2w: &HashMap<usize, usize>) -> (r: WidthOffset)
        ensures
            r.0 == step_down(b2w@, self.0),
    {
        WidthOffset(lookup_down(self.0, b2w))
    }
}

impl WidthOffset {
    /// The byte offset at which the text reaches this width. A width that is
    /// not a key of `w2b` (inside a wide cluster) resolves to the nearest key
    /// below.
    pub fn to_bytes(self, w2b: &HashMap<usize, usize>) -> (r: ByteOffset)
        ensures
            r.0 == step_down(w2b@, self.0),
    {
        ByteOffset(lookup_down(self.0, w2b))
    }
}

} // verus!
