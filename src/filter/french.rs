use vstd::prelude::*;
use vstd::string::*;
use vstd::utf8::*;

use super::Filter;
use crate::chars::{char_index_at, char_table};
use crate::split_point::SplitPoint;

verus! {

/// French typography: no break just before `»` or just after `«`, whether
/// or not the space there is a no-break space.
#[derive(PartialEq, Eq, Clone, Copy, Debug)]
pub struct French;

/// The character at byte `b` of the text is `c`.
pub open spec fn char_after(t: Seq<char>, b: int, c: char) -> bool {
    match char_index_at(t, b) {
        Some(k) => k < t.len() && t[k] == c,
        None => false,
    }
}

/// The character that ends just before byte `b` of the text is `c`.
pub open spec fn char_before(t: Seq<char>, b: int, c: char) -> bool {
    match char_index_at(t, b) {
        Some(k) => k > 0 && t[k - 1] == c,
        None => false,
    }
}

/// Whether the French rule forbids a point.
pub open spec fn forbidden(t: Seq<char>, s: SplitPoint) -> bool {
    char_after(t, s.end.0 as int, '\u{BB}') || char_before(t, s.start.0 as int, '\u{AB}')
}

/// `s` with its `enabled` flag cleared.
pub open spec fn disabled(s: SplitPoint) -> SplitPoint {
    SplitPoint { enabled: false, ..s }
}

impl Filter for French {
    open spec fn spec_run(&self, text: &str, splits: Seq<SplitPoint>) -> Seq<SplitPoint> {
        splits.map_values(
            |s: SplitPoint|
                if forbidden(text@, s) {
                    disabled(s)
                } else {
                    s
                },
        )
    }

    fn run(&self, text: &str, splits: &mut Vec<SplitPoint>) {
        let ghost t = text@;
        let ghost orig = old(splits)@;
        let (chars, index) = char_table(text);
        let mut i: usize = 0;
        while i < splits.len()
            invariant
                t == text@,
                chars@ == t,
                index@.len() == text.spec_bytes().len() + 1,
                forall|b: int|
                    0 <= b < index@.len() ==> match #[trigger] index@[b] {
                        Some(k) => char_index_at(t, b) == Some(k as int),
                        None => char_index_at(t, b) is None,
                    },
                splits@.len() == orig.len(),
                0 <= i <= orig.len(),
                forall|m: int| 0 <= m < i ==> #[trigger] splits@[m] == (if forbidden(t, orig[m]) {
                    disabled(orig[m])
                } else {
                    orig[m]
                }),
                forall|m: int| i <= m < orig.len() ==> #[trigger] splits@[m] == orig[m],
            decreases orig.len() - i,
        {
            let st = splits[i].start.0;
            let en = splits[i].end.0;
            let mut hit = false;
            if en < index.len() {
                if let Some(k) = index[en] {
                    if k < chars.len() && chars[k] == '\u{BB}' {
                        hit = true;
                    }
                }
            }
            if st < index.len() {
                if let Some(k) = index[st] {
                    if k > 0 && k - 1 < chars.len() && chars[k - 1] == '\u{AB}' {
                        hit = true;
                    }
                }
            }
            proof {
                let s = orig[i as int];
                if en >= index@.len() {
                    assert(char_index_at(t, en as int) is None) by {
                        crate::chars::lemma_no_index_past_end(t, en as int);
                    }
                }
                if st >= index@.len() {
                    assert(char_index_at(t, st as int) is None) by {
                        crate::chars::lemma_no_index_past_end(t, st as int);
                    }
                }
                assert(hit == forbidden(t, s));
            }
            if hit {
                splits[i].enabled = false;
            }
            i = i + 1;
        }
        proof {
            assert(splits@ =~= self.spec_run(text, orig));
        }
    }
}

} // verus!
