use vstd::prelude::*;
use vstd::string::*;
use vstd::utf8::*;

use super::{has_shape, lies_within, Generate};
use crate::chars::{
    char_index_at, char_offset, char_table, lemma_bytes_between, lemma_char_index_at,
    lemma_char_offset_bounds, lemma_char_offset_increasing, lemma_char_offset_is_boundary, lemma_char_offset_step, utf8_len,
};
use crate::split_point::SplitPoint;
use crate::text::slice;
use crate::util::{char_is_whitespace, is_break_space};

verus! {

broadcast use vstd::string::group_string_axioms, vstd::utf8::group_utf8_lib;

/// The UAX #14 break opportunities of a text as `xi-unicode` finds them:
/// byte offsets, each with a flag for a hard break.
pub uninterp spec fn line_breaks(text: Seq<char>) -> Seq<(usize, bool)>;

/// Relies on `xi_unicode::LineBreakIterator`: the break opportunities of a
/// text in the order the iterator yields them; they depend on the text alone.
#[verifier::external_body]
fn break_opportunities(text: &str) -> (r: Vec<(usize, bool)>)
    ensures
        r@ == line_breaks(text@),
{
    xi_unicode::LineBreakIterator::new(text).collect()
}

/// Index of the first character of the run of break spaces that ends just
/// before character `k`.
pub open spec fn space_run_start(t: Seq<char>, k: int) -> int
    decreases k,
{
    if 0 < k <= t.len() && is_break_space(t[k - 1]) {
        space_run_start(t, k - 1)
    } else {
        k
    }
}

/// Whether a break is mandatory: a hard break, or the break at the end of
/// the text, which UAX #14 always takes.
pub open spec fn is_mandatory(t: Seq<char>, b: int, hard: bool) -> bool {
    hard || b == encode_utf8(t).len()
}

/// The span and glue of the point made for a break at byte `b`; `None` when
/// `b` is not a character boundary of the text.
///
/// A hard break inside the text swallows the line terminator before it (a
/// CR LF pair as a whole) and keeps it as glue. Any other break swallows the
/// spaces before it and is glued with a newline; a hard break at the end
/// swallows nothing, and trailing spaces stay in place.
pub open spec fn break_shape(t: Seq<char>, b: int, flag: bool) -> Option<(int, int, Seq<char>)> {
    let hard = is_mandatory(t, b, flag);
    match char_index_at(t, b) {
        None => None,
        Some(k) => Some(
            if hard && b != encode_utf8(t).len() {
                if k == 0 {
                    (b, b, Seq::<char>::empty())
                } else if t[k - 1] == '\n' && k >= 2 && t[k - 2] == '\r' {
                    (char_offset(t, k - 2), b, t.subrange(k - 2, k))
                } else {
                    (char_offset(t, k - 1), b, t.subrange(k - 1, k))
                }
            } else {
                let st = char_offset(t, space_run_start(t, k));
                if !hard {
                    (st, b, seq!['\n'])
                } else if st == b {
                    (b, b, Seq::<char>::empty())
                } else {
                    (st, st, seq!['\n'])
                }
            },
        ),
    }
}

/// The shapes of the points made for the given breaks, in order.
pub open spec fn xi_shapes(t: Seq<char>, breaks: Seq<(usize, bool)>) -> Seq<
    (int, int, Seq<char>, bool),
>
    decreases breaks.len(),
{
    if breaks.len() == 0 {
        seq![]
    } else {
        let prev = xi_shapes(t, breaks.drop_last());
        let (b, hard) = breaks.last();
        match break_shape(t, b as int, hard) {
            Some((s, e, g)) => prev.push((s, e, g, is_mandatory(t, b as int, hard))),
            None => prev,
        }
    }
}

/// Breaks at the opportunities of the Unicode line breaking algorithm.
pub struct Xi {
    pub priority: usize,
}

proof fn lemma_space_run(t: Seq<char>, k: int)
    requires
        0 <= k <= t.len(),
    ensures
        0 <= space_run_start(t, k) <= k,
    decreases k,
{
    if 0 < k && is_break_space(t[k - 1]) {
        lemma_space_run(t, k - 1);
    }
}

impl Xi {
    /// The point for the break at byte `b`, which begins character `k`.
    fn point_at(&self, text: &str, chars: &Vec<char>, b: usize, k: usize, flag: bool) -> (r:
        SplitPoint)
        requires
            chars@ == text@,
            0 <= k <= chars@.len(),
            b == char_offset(text@, k as int),
        ensures
            ({
                let (s, e, g) = break_shape(text@, b as int, flag)->0;
                has_shape(r, s, e, g, is_mandatory(text@, b as int, flag), self.priority as int)
            }),
            lies_within(r, text),
    {
        let ghost t = text@;
        let len = text.as_bytes().len();
        proof {
            lemma_char_index_at(t, k as int);
            lemma_char_offset_bounds(t, k as int);
        }
        let hard = flag || b == len;
        let mut start: usize = b;
        let mut end: usize = b;
        let mut glue: String = String::new();
        if hard && b != len {
            if k > 0 {
                let c = chars[k - 1];
                proof {
                    lemma_char_offset_step(t, k - 1);
                    lemma_char_offset_bounds(t, k - 1);
                }
                start = b - utf8_len(c);
                if c == '\n' && k >= 2 && chars[k - 2] == '\r' {
                    proof {
                        lemma_char_offset_step(t, k - 2);
                    }
                    start = start - utf8_len(chars[k - 2]);
                }
                proof {
                    encode_utf8_valid_utf8(t);
                    let lo: int = if c == '\n' && k >= 2 && t[k - 2] == '\r' {
                        k - 2
                    } else {
                        k - 1
                    };
                    lemma_char_offset_bounds(t, lo);
                    lemma_bytes_between(t, lo, k as int);
                    assert(start == char_offset(t, lo));
                    lemma_char_offset_is_boundary(t, lo);
                    lemma_char_offset_is_boundary(t, k as int);
                    lemma_char_offset_increasing(t, lo, k as int);
                }
                glue = slice(text, start, b).to_owned();
            }
        } else {
            let mut j: usize = k;
            while j > 0 && char_is_whitespace(&chars[j - 1])
                invariant
                    chars@ == t,
                    0 <= j <= k <= t.len(),
                    start == char_offset(t, j as int),
                    space_run_start(t, j as int) == space_run_start(t, k as int),
                decreases j,
            {
                proof {
                    lemma_char_offset_step(t, j - 1);
                }
                start = start - utf8_len(chars[j - 1]);
                j = j - 1;
            }
            proof {
                lemma_space_run(t, k as int);
                if j < k {
                    lemma_char_offset_increasing(t, j as int, k as int);
                }
                assert(space_run_start(t, j as int) == j);
                assert(start == char_offset(t, space_run_start(t, k as int)));
            }
            if !hard || start != b {
                glue = "\n".to_string();
                proof {
                    reveal_strlit("\n");
                }
                if hard {
                    end = start;
                }
            }
        }
        let mut p = SplitPoint::new(start, end, self.priority);
        p.mandatory = hard;
        p.glue = glue;
        proof {
            let (s, e, g) = break_shape(t, b as int, flag)->0;
            assert(s == start);
            assert(e == end);
            assert(g == p.glue@);
        }
        p
    }

    /// The points for the break opportunities `breaks` of `text`: for each
    /// break at a character boundary, in order, the point that
    /// `break_shape` describes, with this generator's priority.
    pub fn points_for(&self, text: &str, breaks: &Vec<(usize, bool)>) -> (r: Vec<SplitPoint>)
        ensures
            ({
                let shapes = xi_shapes(text@, breaks@);
                &&& r@.len() == shapes.len()
                &&& forall|i: int|
                    0 <= i < r@.len() ==> has_shape(
                        #[trigger] r@[i],
                        shapes[i].0,
                        shapes[i].1,
                        shapes[i].2,
                        shapes[i].3,
                        self.priority as int,
                    )
            }),
            forall|i: int| 0 <= i < r@.len() ==> lies_within(#[trigger] r@[i], text),
    {
        let (chars, index) = char_table(text);
        let len = text.as_bytes().len();
        let ghost t = text@;
        let mut out: Vec<SplitPoint> = Vec::new();
        let mut i: usize = 0;
        while i < breaks.len()
            invariant
                chars@ == t,
                t == text@,
                len == text.spec_bytes().len(),
                index@.len() == len + 1,
                forall|b: int|
                    0 <= b < index@.len() ==> match #[trigger] index@[b] {
                        Some(k) => char_index_at(t, b) == Some(k as int),
                        None => char_index_at(t, b) is None,
                    },
                0 <= i <= breaks@.len(),
                out@.len() == xi_shapes(t, breaks@.take(i as int)).len(),
                forall|m: int|
                    0 <= m < out@.len() ==> {
                        let sh = xi_shapes(t, breaks@.take(i as int))[m];
                        has_shape(
                            #[trigger] out@[m],
                            sh.0,
                            sh.1,
                            sh.2,
                            sh.3,
                            self.priority as int,
                        )
                    },
                forall|m: int| 0 <= m < out@.len() ==> lies_within(#[trigger] out@[m], text),
            decreases breaks@.len() - i,
        {
            let (b, hard) = breaks[i];
            let ghost before = xi_shapes(t, breaks@.take(i as int));
            proof {
                let tk = breaks@.take(i + 1);
                assert(tk.drop_last() =~= breaks@.take(i as int));
                assert(tk.last() == breaks@[i as int]);
            }
            if b <= len {
                match index[b] {
                    Some(k) => {
                        assert(char_index_at(t, b as int) == Some(k as int));
                        let p = self.point_at(text, &chars, b, k, hard);
                        out.push(p);
                    },
                    None => {},
                }
            } else {
                proof {
                    if exists|w: int| 0 <= w <= t.len() && char_offset(t, w) == b as int {
                        let w = choose|w: int| 0 <= w <= t.len() && char_offset(t, w) == b as int;
                        lemma_char_offset_bounds(t, w);
                        assert(t.take(t.len() as int) =~= t);
                    }
                }
            }
            i = i + 1;
        }
        proof {
            assert(breaks@.take(breaks@.len() as int) =~= breaks@);
        }
        out
    }

}

impl Generate for Xi {
    open spec fn produces(&self, text: &str, points: Seq<SplitPoint>) -> bool {
        let shapes = xi_shapes(text@, line_breaks(text@));
        &&& points.len() == shapes.len()
        &&& forall|i: int|
            0 <= i < points.len() ==> has_shape(
                #[trigger] points[i],
                shapes[i].0,
                shapes[i].1,
                shapes[i].2,
                shapes[i].3,
                self.priority as int,
            )
    }

    fn opportunities(&self, text: &str) -> (r: Vec<SplitPoint>) {
        let breaks = break_opportunities(text);
        self.points_for(text, &breaks)
    }
}

} // verus!
