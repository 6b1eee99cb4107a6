use std::collections::HashMap;
use vstd::prelude::*;

use crate::offset::{step_down, WidthOffset};
use crate::ruler::TextWidth;
use crate::split_point::{score_of, sorts_before, width_of, SplitPoint};

verus! {

broadcast use vstd::std_specs::hash::group_hash_axioms;

/// `x` placed into the sorted sequence `s` after every point that does not
/// sort strictly after it (so that equal keys keep their order).
pub open spec fn insert_sorted(s: Seq<SplitPoint>, x: SplitPoint) -> Seq<SplitPoint>
    decreases s.len(),
{
    if s.len() == 0 {
        seq![x]
    } else if sorts_before(x, s.last()) {
        insert_sorted(s.drop_last(), x).push(s.last())
    } else {
        s.push(x)
    }
}

/// The stable sort of split points by `sort_key`.
pub open spec fn sorted_splits(s: Seq<SplitPoint>) -> Seq<SplitPoint>
    decreases s.len(),
{
    if s.len() == 0 {
        s
    } else {
        insert_sorted(sorted_splits(s.drop_last()), s.last())
    }
}

proof fn lemma_insert_at(s: Seq<SplitPoint>, x: SplitPoint, j: int)
    requires
        0 <= j <= s.len(),
        forall|k: int| j <= k < s.len() ==> sorts_before(x, #[trigger] s[k]),
        j == 0 || !sorts_before(x, s[j - 1]),
    ensures
        insert_sorted(s, x) == s.take(j) + seq![x] + s.skip(j),
    decreases s.len(),
{
    if s.len() == j {
        if s.len() > 0 {
            assert(s.last() == s[j - 1]);
        }
        assert(s.take(j) =~= s);
        assert(s.skip(j) =~= Seq::<SplitPoint>::empty());
        assert(s.push(x) =~= s.take(j) + seq![x] + s.skip(j));
    } else {
        let d = s.drop_last();
        assert(sorts_before(x, s[s.len() - 1]));
        assert forall|k: int| j <= k < d.len() implies sorts_before(x, #[trigger] d[k]) by {
            assert(d[k] == s[k]);
        }
        if j > 0 {
            assert(d[j - 1] == s[j - 1]);
        }
        lemma_insert_at(d, x, j);
        assert((d.take(j) + seq![x] + d.skip(j)).push(s.last()) =~= s.take(j) + seq![x] + s.skip(
            j,
        ));
    }
}

/// No point sorts strictly before one that precedes it.
pub open spec fn is_sorted(s: Seq<SplitPoint>) -> bool {
    forall|i: int, j: int| 0 <= i < j < s.len() ==> !sorts_before(#[trigger] s[j], #[trigger] s[i])
}

proof fn lemma_insert_sorted_sorted(s: Seq<SplitPoint>, x: SplitPoint)
    requires
        is_sorted(s),
    ensures
        is_sorted(insert_sorted(s, x)),
        insert_sorted(s, x).to_multiset() =~= s.to_multiset().insert(x),
    decreases s.len(),
{
    broadcast use vstd::seq_lib::group_to_multiset_ensures;

    let r = insert_sorted(s, x);
    if s.len() == 0 {
        assert(seq![x] =~= Seq::<SplitPoint>::empty().push(x));
    } else {
        let d = s.drop_last();
        let last = s.last();
        assert(s =~= d.push(last));
        if sorts_before(x, last) {
            assert(is_sorted(d)) by {
                assert forall|i: int, j: int| 0 <= i < j < d.len() implies !sorts_before(
                    #[trigger] d[j],
                    #[trigger] d[i],
                ) by {
                    assert(d[i] == s[i] && d[j] == s[j]);
                }
            }
            lemma_insert_sorted_sorted(d, x);
            lemma_insert_sorted_members(d, x);
            let q = insert_sorted(d, x);
            assert(r == q.push(last));
            assert forall|i: int, j: int| 0 <= i < j < r.len() implies !sorts_before(
                #[trigger] r[j],
                #[trigger] r[i],
            ) by {
                if j < r.len() - 1 {
                    assert(r[i] == q[i] && r[j] == q[j]);
                } else {
                    assert(r[i] == q[i]);
                    if q[i] != x {
                        let k = choose|k: int| 0 <= k < d.len() && d[k] == q[i];
                        assert(s[k] == d[k]);
                        assert(s[s.len() - 1] == last);
                    }
                }
            }
        } else {
            assert(r == s.push(x));
            assert forall|i: int, j: int| 0 <= i < j < r.len() implies !sorts_before(
                #[trigger] r[j],
                #[trigger] r[i],
            ) by {
                assert(r[i] == s[i]);
                if j < s.len() {
                    assert(r[j] == s[j]);
                } else if i < s.len() - 1 {
                    assert(s[s.len() - 1] == last);
                    assert(!sorts_before(s[s.len() - 1], s[i]));
                }
            }
        }
    }
}

/// Sorting gives a sorted sequence with the same points.
pub proof fn lemma_sorted_splits_sorted(s: Seq<SplitPoint>)
    ensures
        is_sorted(sorted_splits(s)),
        sorted_splits(s).to_multiset() =~= s.to_multiset(),
    decreases s.len(),
{
    broadcast use vstd::seq_lib::group_to_multiset_ensures;

    if s.len() > 0 {
        let d = s.drop_last();
        lemma_sorted_splits_sorted(d);
        lemma_insert_sorted_sorted(sorted_splits(d), s.last());
        assert(s =~= d.push(s.last()));
    }
}

/// Sorts split points stably by `priority + start`, then `end`.
pub fn sort_splits(splits: Vec<SplitPoint>) -> (r: Vec<SplitPoint>)
    ensures
        r@ == sorted_splits(splits@),
        is_sorted(r@),
        r@.to_multiset() == splits@.to_multiset(),
{
    proof {
        lemma_sorted_splits_sorted(splits@);
    }
    let ghost orig = splits@;
    let mut v = splits;
    let mut i: usize = 0;
    proof {
        assert(orig.take(0) =~= Seq::<SplitPoint>::empty());
        assert(v@ =~= sorted_splits(orig.take(0)) + orig.skip(0));
    }
    while i < v.len()
        invariant
            v@.len() == orig.len(),
            0 <= i <= v@.len(),
            v@ == sorted_splits(orig.take(i as int)) + orig.skip(i as int),
            sorted_splits(orig.take(i as int)).len() == i,
        decreases v@.len() - i,
    {
        let ghost sorted = sorted_splits(orig.take(i as int));
        let x = v.remove(i);
        assert(x == orig[i as int]);
        let mut j: usize = i;
        while j > 0 && x.sorts_before(&v[j - 1])
            invariant
                0 <= j <= i,
                i < orig.len(),
                v@.len() == orig.len() - 1,
                v@.take(i as int) == sorted,
                forall|k: int| j <= k < i ==> sorts_before(x, #[trigger] sorted[k]),
            decreases j,
        {
            assert(v@[j - 1] == sorted[j - 1]);
            j = j - 1;
        }
        proof {
            if j > 0 {
                assert(v@[j - 1] == sorted[j - 1]);
            }
            lemma_insert_at(sorted, x, j as int);
        }
        v.insert(j, x);
        proof {
            let t = orig.take(i + 1);
            assert(t.drop_last() =~= orig.take(i as int));
            assert(t.last() == orig[i as int]);
            assert(sorted_splits(t) == insert_sorted(sorted, x));
            assert(v@ =~= sorted_splits(orig.take(i + 1)) + orig.skip(i + 1));
        }
        i = i + 1;
    }
    proof {
        assert(orig.take(i as int) =~= orig);
        assert(v@ =~= sorted_splits(orig));
    }
    v
}

proof fn lemma_insert_sorted_members(s: Seq<SplitPoint>, x: SplitPoint)
    ensures
        insert_sorted(s, x).len() == s.len() + 1,
        forall|i: int|
            0 <= i < insert_sorted(s, x).len() ==> #[trigger] insert_sorted(s, x)[i] == x
                || s.contains(insert_sorted(s, x)[i]),
    decreases s.len(),
{
    if s.len() > 0 && sorts_before(x, s.last()) {
        let d = s.drop_last();
        lemma_insert_sorted_members(d, x);
        let r = insert_sorted(s, x);
        assert forall|i: int| 0 <= i < r.len() implies #[trigger] r[i] == x || s.contains(r[i]) by {
            if i < r.len() - 1 {
                assert(r[i] == insert_sorted(d, x)[i]);
                if r[i] != x {
                    let j = choose|j: int| 0 <= j < d.len() && d[j] == r[i];
                    assert(s[j] == r[i]);
                }
            } else {
                assert(s[s.len() - 1] == r[i]);
            }
        }
    } else if s.len() > 0 {
        let r = insert_sorted(s, x);
        assert forall|i: int| 0 <= i < r.len() implies #[trigger] r[i] == x || s.contains(r[i]) by {
            if i < s.len() {
                assert(s[i] == r[i]);
            }
        }
    }
}

/// Sorting keeps the length, and every width that was set stays set.
pub proof fn lemma_sorted_widths(s: Seq<SplitPoint>)
    ensures
        sorted_splits(s).len() == s.len(),
        all_widths_set(s) ==> all_widths_set(sorted_splits(s)),
    decreases s.len(),
{
    if s.len() > 0 {
        let d = s.drop_last();
        lemma_sorted_widths(d);
        lemma_insert_sorted_members(sorted_splits(d), s.last());
        if all_widths_set(s) {
            assert(all_widths_set(d)) by {
                assert forall|i: int| 0 <= i < d.len() implies (#[trigger] d[i]).width is Some by {
                    assert(d[i] == s[i]);
                }
            }
            let r = sorted_splits(s);
            assert forall|i: int| 0 <= i < r.len() implies (#[trigger] r[i]).width is Some by {
                if r[i] != s.last() {
                    let sd = sorted_splits(d);
                    let j = choose|j: int| 0 <= j < sd.len() && sd[j] == r[i];
                }
            }
        }
    }
}

/// One line's scan, from index `i` of the sorted points `s`, for a line that
/// may reach column `endl`. Returns the chosen point, if any, and the index
/// where the next line's scan starts (`c` when the points run out).
///
/// The scan stops at the first point wider than `endl`. Disabled points are
/// passed over; the first enabled mandatory point is taken at once;
/// otherwise the last point with the highest score wins.
pub open spec fn scan<R: TextWidth>(
    ruler: &R,
    s: Seq<SplitPoint>,
    endl: int,
    c: int,
    i: int,
    best: Option<int>,
    best_score: int,
) -> (Option<int>, int)
    decreases s.len() - i,
{
    if i < 0 || i >= s.len() {
        (best, c)
    } else if width_of(s[i]) > endl {
        (best, i)
    } else if !s[i].enabled {
        scan(ruler, s, endl, c, i + 1, best, best_score)
    } else if s[i].mandatory {
        (Some(i), i + 1)
    } else if score_of(ruler, s[i]) >= best_score {
        scan(ruler, s, endl, c, i + 1, Some(i), score_of(ruler, s[i]))
    } else {
        scan(ruler, s, endl, c, i + 1, best, best_score)
    }
}

proof fn lemma_scan_reaches_mandatory<R: TextWidth>(
    ruler: &R,
    s: Seq<SplitPoint>,
    endl: int,
    c: int,
    i: int,
    m: int,
    best: Option<int>,
    best_score: int,
)
    requires
        0 <= i <= m < s.len(),
        forall|q: int| i <= q < m ==> width_of(#[trigger] s[q]) <= endl && !(s[q].enabled && s[q].mandatory),
        width_of(s[m]) <= endl,
        s[m].enabled,
        s[m].mandatory,
    ensures
        scan(ruler, s, endl, c, i, best, best_score) == (Some(m), m + 1),
    decreases m - i,
{
    if i < m {
        let q = i;
        assert(width_of(s[q]) <= endl);
        if !s[i].enabled {
            lemma_scan_reaches_mandatory(ruler, s, endl, c, i + 1, m, best, best_score);
        } else if score_of(ruler, s[i]) >= best_score {
            lemma_scan_reaches_mandatory(ruler, s, endl, c, i + 1, m, Some(i), score_of(ruler, s[i]));
        } else {
            lemma_scan_reaches_mandatory(ruler, s, endl, c, i + 1, m, best, best_score);
        }
    }
}

/// Mandatory precedence: when the points that a line's scan reaches before
/// the first one beyond the line hold an enabled mandatory point, the first
/// such point is the line's choice.
pub proof fn lemma_mandatory_first<R: TextWidth>(
    ruler: &R,
    s: Seq<SplitPoint>,
    endl: int,
    c: int,
    m: int,
)
    requires
        0 <= c <= m < s.len(),
        forall|q: int| c <= q <= m ==> width_of(#[trigger] s[q]) <= endl,
        forall|q: int| c <= q < m ==> !((#[trigger] s[q]).enabled && s[q].mandatory),
        s[m].enabled,
        s[m].mandatory,
    ensures
        scan(ruler, s, endl, c, c, None, 0) == (Some(m), m + 1),
{
    assert(width_of(s[m]) <= endl);
    lemma_scan_reaches_mandatory(ruler, s, endl, c, c, m, None, 0);
}

proof fn lemma_scan_choice_fits<R: TextWidth>(
    ruler: &R,
    s: Seq<SplitPoint>,
    endl: int,
    c: int,
    i: int,
    best: Option<int>,
    best_score: int,
)
    requires
        0 <= c <= i,
        best matches Some(b) ==> c <= b < s.len() && width_of(s[b]) <= endl && s[b].enabled,
    ensures
        ({
            let (b, n) = scan(ruler, s, endl, c, i, best, best_score);
            b matches Some(x) ==> c <= x < s.len() && width_of(s[x]) <= endl && s[x].enabled
        }),
    decreases s.len() - i,
{
    if 0 <= i < s.len() && width_of(s[i]) <= endl {
        if !s[i].enabled {
            lemma_scan_choice_fits(ruler, s, endl, c, i + 1, best, best_score);
        } else if !s[i].mandatory {
            if score_of(ruler, s[i]) >= best_score {
                lemma_scan_choice_fits(ruler, s, endl, c, i + 1, Some(i), score_of(ruler, s[i]));
            } else {
                lemma_scan_choice_fits(ruler, s, endl, c, i + 1, best, best_score);
            }
        }
    }
}

proof fn lemma_scan_next<R: TextWidth>(
    ruler: &R,
    s: Seq<SplitPoint>,
    endl: int,
    c: int,
    i: int,
    best: Option<int>,
    best_score: int,
)
    requires
        0 <= c <= i,
    ensures
        scan(ruler, s, endl, c, i, best, best_score).1 >= c,
    decreases s.len() - i,
{
    if 0 <= i < s.len() && width_of(s[i]) <= endl {
        if !s[i].enabled {
            lemma_scan_next(ruler, s, endl, c, i + 1, best, best_score);
        } else if !s[i].mandatory {
            if score_of(ruler, s[i]) >= best_score {
                lemma_scan_next(ruler, s, endl, c, i + 1, Some(i), score_of(ruler, s[i]));
            } else {
                lemma_scan_next(ruler, s, endl, c, i + 1, best, best_score);
            }
        }
    }
}

/// Width bound, in columns of the coordinate maps: the point that a line's
/// scan chooses is enabled and reaches no further than the line's last
/// column `endl`, glue included.
pub proof fn lemma_choice_fits<R: TextWidth>(ruler: &R, s: Seq<SplitPoint>, endl: int, c: int)
    requires
        0 <= c,
    ensures
        ({
            let (b, n) = scan(ruler, s, endl, c, c, None, 0);
            b matches Some(x) ==> c <= x < s.len() && width_of(s[x]) <= endl && s[x].enabled
        }),
{
    lemma_scan_choice_fits(ruler, s, endl, c, c, None, 0);
}

/// The measure that the line loop decreases.
pub open spec fn remaining(total: int, ls: int) -> int {
    if ls <= total {
        total - ls
    } else {
        0
    }
}

/// Whether a line takes the point `best` that its scan chose: always when
/// it is mandatory, and otherwise only if the next line then starts further
/// right.
pub open spec fn takes(s: Seq<SplitPoint>, b2w: Map<usize, usize>, best: Option<int>, ls: int) -> bool {
    match best {
        Some(b) => s[b].mandatory || step_down(b2w, s[b].end.0) > ls,
        None => false,
    }
}

/// The column where the next line starts when the line at `ls` ends with
/// point `b`: that of the point's end, but never left of `ls`.
pub open spec fn next_start(s: Seq<SplitPoint>, b2w: Map<usize, usize>, b: int, ls: int) -> int {
    let e = step_down(b2w, s[b].end.0) as int;
    if e > ls {
        e
    } else {
        ls
    }
}

/// A mandatory choice of the scan is the point just before where the next
/// scan starts.
pub proof fn lemma_scan_mandatory_next<R: TextWidth>(
    ruler: &R,
    s: Seq<SplitPoint>,
    endl: int,
    c: int,
    i: int,
    best: Option<int>,
    best_score: int,
)
    requires
        0 <= c <= i,
        best matches Some(x) ==> c <= x < s.len() && !s[x].mandatory,
    ensures
        ({
            let (b, n) = scan(ruler, s, endl, c, i, best, best_score);
            b matches Some(x) ==> c <= x < s.len() && (s[x].mandatory ==> n == x + 1)
        }),
    decreases s.len() - i,
{
    if 0 <= i < s.len() && width_of(s[i]) <= endl {
        if !s[i].enabled {
            lemma_scan_mandatory_next(ruler, s, endl, c, i + 1, best, best_score);
        } else if !s[i].mandatory {
            if score_of(ruler, s[i]) >= best_score {
                lemma_scan_mandatory_next(ruler, s, endl, c, i + 1, Some(i), score_of(ruler, s[i]));
            } else {
                lemma_scan_mandatory_next(ruler, s, endl, c, i + 1, best, best_score);
            }
        }
    }
}

/// Greedy selection of breaks, line by line, from the line that starts at
/// column `ls` with the scan starting at index `c`; `cuts` and `forced` hold
/// what earlier lines chose (indices into `s`, and byte offsets of forced
/// breaks). `None` when a line has no usable break and words may not be
/// broken.
///
/// The scan's choice ends the line when `takes` holds (a mandatory point
/// always does); an optional point that would not move the next line right
/// is treated as no valid break.
pub open spec fn select<R: TextWidth>(
    ruler: &R,
    s: Seq<SplitPoint>,
    b2w: Map<usize, usize>,
    w2b: Map<usize, usize>,
    total: int,
    width: int,
    break_word: bool,
    ls: int,
    c: int,
    cuts: Seq<usize>,
    forced: Seq<usize>,
) -> Option<(Seq<usize>, Seq<usize>)>
    decreases remaining(total, ls), s.len() - c,
{
    if width <= 0 || ls + width >= total {
        Some((cuts, forced))
    } else {
        let endl = ls + width;
        let (best, next) = scan(ruler, s, endl, c, c, None, 0);
        proof {
            if c >= 0 {
                lemma_scan_mandatory_next(ruler, s, endl, c, c, None, 0);
            }
        }
        let b = best.unwrap_or(0);
        let nls = next_start(s, b2w, b, ls);
        if takes(s, b2w, best, ls) {
            select(ruler, s, b2w, w2b, total, width, break_word, nls, next, cuts.push(b as usize), forced)
        } else if break_word {
            select(
                ruler,
                s,
                b2w,
                w2b,
                total,
                width,
                break_word,
                endl,
                next,
                cuts,
                forced.push(step_down(w2b, endl as usize)),
            )
        } else {
            None
        }
    }
}

/// The lines that selection ends with a break, each as the column where it
/// starts, whether its break is a chosen point, and that point's index (or
/// the byte offset of the forced break); and the column where the last line
/// starts. Follows `select` step by step.
pub open spec fn select_lines<R: TextWidth>(
    ruler: &R,
    s: Seq<SplitPoint>,
    b2w: Map<usize, usize>,
    w2b: Map<usize, usize>,
    total: int,
    width: int,
    break_word: bool,
    ls: int,
    c: int,
) -> (Seq<(int, bool, int)>, int)
    decreases remaining(total, ls), s.len() - c,
{
    if width <= 0 || ls + width >= total {
        (seq![], ls)
    } else {
        let endl = ls + width;
        let (best, next) = scan(ruler, s, endl, c, c, None, 0);
        proof {
            if c >= 0 {
                lemma_scan_mandatory_next(ruler, s, endl, c, c, None, 0);
            }
        }
        let b = best.unwrap_or(0);
        let nls = next_start(s, b2w, b, ls);
        if takes(s, b2w, best, ls) {
            let (rest, last) = select_lines(ruler, s, b2w, w2b, total, width, break_word, nls, next);
            (seq![(ls, true, b)] + rest, last)
        } else if break_word {
            let (rest, last) = select_lines(ruler, s, b2w, w2b, total, width, break_word, endl, next);
            (seq![(ls, false, step_down(w2b, endl as usize) as int)] + rest, last)
        } else {
            (seq![], ls)
        }
    }
}

/// The indices of the chosen points among the lines, in order.
pub open spec fn chosen_of(lines: Seq<(int, bool, int)>) -> Seq<usize>
    decreases lines.len(),
{
    if lines.len() == 0 {
        seq![]
    } else {
        (if lines[0].1 {
            seq![lines[0].2 as usize]
        } else {
            seq![]
        }) + chosen_of(lines.drop_first())
    }
}

proof fn lemma_lines_shape<R: TextWidth>(
    ruler: &R,
    s: Seq<SplitPoint>,
    b2w: Map<usize, usize>,
    w2b: Map<usize, usize>,
    total: int,
    width: int,
    break_word: bool,
    ls: int,
    c: int,
)
    requires
        0 <= c,
    ensures
        ({
            let (lines, last) = select_lines(ruler, s, b2w, w2b, total, width, break_word, ls, c);
            &&& forall|j: int|
                0 <= j < lines.len() && (#[trigger] lines[j]).1 ==> 0 <= lines[j].2 < s.len()
                    && width_of(s[lines[j].2]) <= lines[j].0 + width
            &&& forall|j: int| 0 < j < lines.len() ==> (#[trigger] lines[j]).0 >= lines[j - 1].0
            &&& lines.len() > 0 ==> lines[0].0 == ls && lines.last().0 <= last
            &&& lines.len() == 0 ==> last == ls
        }),
    decreases remaining(total, ls), s.len() - c,
{
    if !(width <= 0 || ls + width >= total) {
        let endl = ls + width;
        let (best, next) = scan(ruler, s, endl, c, c, None, 0);
        if c >= 0 {
            lemma_scan_mandatory_next(ruler, s, endl, c, c, None, 0);
        }
        lemma_choice_fits(ruler, s, endl, c);
        lemma_scan_next(ruler, s, endl, c, c, None, 0);
        let b = best.unwrap_or(0);
        let nls = next_start(s, b2w, b, ls);
        let lines = select_lines(ruler, s, b2w, w2b, total, width, break_word, ls, c).0;
        let nxt = if takes(s, b2w, best, ls) {
            nls
        } else {
            endl
        };
        if takes(s, b2w, best, ls) || break_word {
            lemma_lines_shape(ruler, s, b2w, w2b, total, width, break_word, nxt, next);
            let rest = select_lines(ruler, s, b2w, w2b, total, width, break_word, nxt, next).0;
            assert(lines.drop_first() =~= rest);
            assert forall|j: int| 0 < j < lines.len() implies (#[trigger] lines[j]).0 >= lines[j - 1].0 by {
                assert(lines[j] == rest[j - 1]);
                if j > 1 {
                    assert(lines[j - 1] == rest[j - 2]);
                }
            }
            assert forall|j: int| 0 <= j < lines.len() && (#[trigger] lines[j]).1 implies 0 <= lines[j].2
                < s.len() && width_of(s[lines[j].2]) <= lines[j].0 + width by {
                if j > 0 {
                    assert(lines[j] == rest[j - 1]);
                }
            }
        }
    }
}

proof fn lemma_lines_select<R: TextWidth>(
    ruler: &R,
    s: Seq<SplitPoint>,
    b2w: Map<usize, usize>,
    w2b: Map<usize, usize>,
    total: int,
    width: int,
    break_word: bool,
    ls: int,
    c: int,
    cuts: Seq<usize>,
    forced: Seq<usize>,
)
    requires
        width > 0,
    ensures
        ({
            let (lines, last) = select_lines(ruler, s, b2w, w2b, total, width, break_word, ls, c);
            select(ruler, s, b2w, w2b, total, width, break_word, ls, c, cuts, forced) matches Some(
                (cs, fs),
            ) ==> last + width >= total && cs == cuts + chosen_of(lines)
        }),
    decreases remaining(total, ls), s.len() - c,
{
    if !(width <= 0 || ls + width >= total) {
        let endl = ls + width;
        let (best, next) = scan(ruler, s, endl, c, c, None, 0);
        if c >= 0 {
            lemma_scan_mandatory_next(ruler, s, endl, c, c, None, 0);
        }
        let b = best.unwrap_or(0);
        let nls = next_start(s, b2w, b, ls);
        let lines = select_lines(ruler, s, b2w, w2b, total, width, break_word, ls, c).0;
        if takes(s, b2w, best, ls) {
            lemma_lines_select(ruler, s, b2w, w2b, total, width, break_word, nls, next, cuts.push(b as usize), forced);
            let rest = select_lines(ruler, s, b2w, w2b, total, width, break_word, nls, next).0;
            assert(lines.drop_first() =~= rest);
            assert(chosen_of(lines) == seq![b as usize] + chosen_of(rest));
            assert(cuts.push(b as usize) + chosen_of(rest) =~= cuts + (seq![b as usize] + chosen_of(rest)));
        } else if break_word {
            let o = step_down(w2b, endl as usize);
            lemma_lines_select(ruler, s, b2w, w2b, total, width, break_word, endl, next, cuts, forced.push(o));
            let rest = select_lines(ruler, s, b2w, w2b, total, width, break_word, endl, next).0;
            assert(lines.drop_first() =~= rest);
            assert(chosen_of(lines) =~= Seq::<usize>::empty() + chosen_of(rest));
        }
    } else {
        assert(cuts + chosen_of(seq![]) =~= cuts);
    }
}

/// Width bound, line by line: no line starts left of the one before;
/// each chosen break reaches no further than `width` columns past the start
/// of its line, glue included; and once selection succeeds, the rest of the
/// text after the last break fits in `width` columns. The breaks that
/// selection returns are exactly the chosen ones among these lines.
pub proof fn lemma_lines_fit<R: TextWidth>(
    ruler: &R,
    s: Seq<SplitPoint>,
    b2w: Map<usize, usize>,
    w2b: Map<usize, usize>,
    total: int,
    width: int,
    break_word: bool,
)
    requires
        width > 0,
    ensures
        ({
            let (lines, last) = select_lines(ruler, s, b2w, w2b, total, width, break_word, 0, 0);
            &&& forall|j: int|
                0 <= j < lines.len() && (#[trigger] lines[j]).1 ==> 0 <= lines[j].2 < s.len()
                    && width_of(s[lines[j].2]) <= lines[j].0 + width
            &&& forall|j: int| 0 < j < lines.len() ==> (#[trigger] lines[j]).0 >= lines[j - 1].0
            &&& lines.len() > 0 ==> lines[0].0 == 0 && lines.last().0 <= last
            &&& select(ruler, s, b2w, w2b, total, width, break_word, 0, 0, seq![], seq![]) matches Some(
                (cs, fs),
            ) ==> last + width >= total && cs == chosen_of(lines)
        }),
{
    lemma_lines_shape(ruler, s, b2w, w2b, total, width, break_word, 0, 0);
    lemma_lines_select(ruler, s, b2w, w2b, total, width, break_word, 0, 0, seq![], seq![]);
    let lines = select_lines(ruler, s, b2w, w2b, total, width, break_word, 0, 0).0;
    assert(Seq::<usize>::empty() + chosen_of(lines) =~= chosen_of(lines));
}

/// Mandatory precedence, for a line of the selection: when the points that
/// the line's scan reaches before the first one beyond the line hold an
/// enabled mandatory point, the first such point ends the line.
pub proof fn lemma_mandatory_ends_line<R: TextWidth>(
    ruler: &R,
    s: Seq<SplitPoint>,
    b2w: Map<usize, usize>,
    w2b: Map<usize, usize>,
    total: int,
    width: int,
    break_word: bool,
    ls: int,
    c: int,
    m: int,
)
    requires
        width > 0,
        ls + width < total,
        0 <= c <= m < s.len(),
        forall|q: int| c <= q <= m ==> width_of(#[trigger] s[q]) <= ls + width,
        forall|q: int| c <= q < m ==> !((#[trigger] s[q]).enabled && s[q].mandatory),
        s[m].enabled,
        s[m].mandatory,
    ensures
        select_lines(ruler, s, b2w, w2b, total, width, break_word, ls, c).0.len() > 0,
        select_lines(ruler, s, b2w, w2b, total, width, break_word, ls, c).0[0] == (ls, true, m),
{
    lemma_mandatory_first(ruler, s, ls + width, c, m);
    assert(takes(s, b2w, Some(m), ls));
}

/// When words may be broken, selection always succeeds.
pub proof fn lemma_break_word_succeeds<R: TextWidth>(
    ruler: &R,
    s: Seq<SplitPoint>,
    b2w: Map<usize, usize>,
    w2b: Map<usize, usize>,
    total: int,
    width: int,
    ls: int,
    c: int,
    cuts: Seq<usize>,
    forced: Seq<usize>,
)
    ensures
        select(ruler, s, b2w, w2b, total, width, true, ls, c, cuts, forced) is Some,
    decreases remaining(total, ls), s.len() - c,
{
    if !(width <= 0 || ls + width >= total) {
        let endl = ls + width;
        let (best, next) = scan(ruler, s, endl, c, c, None, 0);
        if c >= 0 {
            lemma_scan_mandatory_next(ruler, s, endl, c, c, None, 0);
        }
        let b = best.unwrap_or(0);
        let nls = next_start(s, b2w, b, ls);
        if takes(s, b2w, best, ls) {
            lemma_break_word_succeeds(ruler, s, b2w, w2b, total, width, nls, next, cuts.push(b as usize), forced);
        } else {
            lemma_break_word_succeeds(
                ruler,
                s,
                b2w,
                w2b,
                total,
                width,
                endl,
                next,
                cuts,
                forced.push(step_down(w2b, endl as usize)),
            );
        }
    }
}

/// Every point has its width set.
pub open spec fn all_widths_set(s: Seq<SplitPoint>) -> bool {
    forall|i: int| 0 <= i < s.len() ==> (#[trigger] s[i]).width is Some
}

/// An optional exec index as a spec index.
pub open spec fn index_of(o: Option<usize>) -> Option<int> {
    match o {
        Some(x) => Some(x as int),
        None => None,
    }
}

/// Runs one line's scan (see `scan`).
fn scan_line<R: TextWidth>(ruler: &R, s: &Vec<SplitPoint>, endl: usize, c: usize) -> (r: (
    Option<usize>,
    usize,
))
    requires
        all_widths_set(s@),
        c <= s@.len(),
    ensures
        ({
            let (b, n) = scan(ruler, s@, endl as int, c as int, c as int, None, 0);
            &&& r.1 == n
            &&& r.0 matches Some(x) ==> b == Some(x as int)
            &&& r.0 is None ==> b is None
            &&& n <= s@.len()
            &&& (b matches Some(x) ==> c <= x < s@.len())
        }),
{
    let mut best: Option<usize> = None;
    let mut best_score: i128 = 0;
    let mut i: usize = c;
    while i < s.len()
        invariant
            all_widths_set(s@),
            c <= i <= s@.len(),
            best matches Some(x) ==> c <= x < i,
            scan(ruler, s@, endl as int, c as int, i as int, index_of(best), best_score as int)
                == scan(ruler, s@, endl as int, c as int, c as int, None, 0),
        decreases s@.len() - i,
    {
        let sp = &s[i];
        let w = match sp.width {
            Some(w) => w.0,
            None => 0,
        };
        if w > endl {
            proof {
                assert(width_of(s@[i as int]) == w);
            }
            return (best, i);
        }
        if sp.enabled {
            if sp.mandatory {
                return (Some(i), i + 1);
            }
            let g = ruler.measure(sp.glue.as_str());
            let score: i128 = w as i128 + sp.priority.0 as i128 - g as i128;
            if score >= best_score {
                best = Some(i);
                best_score = score;
            }
        }
        i = i + 1;
    }
    (best, c)
}

/// Greedy selection over the sorted points `s` (see `select`), for a text
/// of width `total` and lines of at most `width` columns.
pub fn select_cuts<R: TextWidth>(
    ruler: &R,
    s: &Vec<SplitPoint>,
    b2w: &HashMap<usize, usize>,
    w2b: &HashMap<usize, usize>,
    total: usize,
    width: usize,
    break_word: bool,
) -> (r: Option<(Vec<usize>, Vec<usize>)>)
    requires
        all_widths_set(s@),
    ensures
        match select(
            ruler,
            s@,
            b2w@,
            w2b@,
            total as int,
            width as int,
            break_word,
            0,
            0,
            seq![],
            seq![],
        ) {
            Some((cuts, forced)) => r matches Some((a, f)) && a@ == cuts && f@ == forced,
            None => r is None,
        },
        r matches Some((a, f)) ==> forall|k: int| 0 <= k < a@.len() ==> (#[trigger] a@[k]) < s@.len(),
{
    let mut ls: usize = 0;
    let mut c: usize = 0;
    let mut cuts: Vec<usize> = Vec::new();
    let mut forced: Vec<usize> = Vec::new();
    loop
        invariant
            all_widths_set(s@),
            c <= s@.len(),
            forall|k: int| 0 <= k < cuts@.len() ==> (#[trigger] cuts@[k]) < s@.len(),
            select(ruler, s@, b2w@, w2b@, total as int, width as int, break_word, ls as int, c as int, cuts@, forced@)
                == select(ruler, s@, b2w@, w2b@, total as int, width as int, break_word, 0, 0, seq![], seq![]),
        decreases remaining(total as int, ls as int), s@.len() - c,
    {
        if width == 0 || width >= total || ls >= total - width {
            return Some((cuts, forced));
        }
        let endl = ls + width;
        let (best, next) = scan_line(ruler, s, endl, c);
        proof {
            lemma_scan_mandatory_next(ruler, s@, endl as int, c as int, c as int, None, 0);
        }
        let mut advanced = false;
        if let Some(b) = best {
            let nls = s[b].end.to_width(b2w).0;
            if s[b].mandatory || nls > ls {
                cuts.push(b);
                if nls > ls {
                    ls = nls;
                }
                advanced = true;
            }
        }
        if !advanced {
            if break_word {
                let o = WidthOffset(endl).to_bytes(w2b).0;
                forced.push(o);
                ls = endl;
            } else {
                return None;
            }
        }
        c = next;
    }
}

} // verus!
