use vstd::prelude::*;
use vstd::string::*;
use vstd::utf8::*;

use crate::ruler::unicode_width::{display_width, lemma_display_width_additive};
use crate::split_point::SplitPoint;
use crate::text::{chars_between, lemma_chars_between_split, slice};

verus! {

broadcast use vstd::string::group_string_axioms, vstd::utf8::group_utf8_lib;

/// A break as the emitter sees it: first elided byte, first byte of the
/// next line, and the glue.
pub type Cut = (usize, usize, Seq<char>);

/// The breaks that selection chose, as cuts.
pub open spec fn real_cuts(s: Seq<SplitPoint>, chosen: Seq<usize>) -> Seq<Cut> {
    chosen.map_values(|k: usize| (s[k as int].start.0, s[k as int].end.0, s[k as int].glue@))
}

/// Forced breaks at the given offsets, all with the same glue.
pub open spec fn forced_cuts(offsets: Seq<usize>, glue: Seq<char>) -> Seq<Cut> {
    offsets.map_values(|o: usize| (o, o, glue))
}

/// Merges two lists of cuts by start; on equal starts the second list goes
/// first.
pub open spec fn merge_cuts(a: Seq<Cut>, b: Seq<Cut>) -> Seq<Cut>
    decreases a.len() + b.len(),
{
    if a.len() == 0 {
        b
    } else if b.len() == 0 {
        a
    } else if a[0].0 < b[0].0 {
        seq![a[0]] + merge_cuts(a.drop_first(), b)
    } else {
        seq![b[0]] + merge_cuts(a, b.drop_first())
    }
}

/// A cut can be taken when the output has not passed its start and its
/// bounds lie on character boundaries in order.
pub open spec fn cut_fits(bytes: Seq<u8>, cur: int, c: Cut) -> bool {
    &&& cur <= c.0 <= c.1 <= bytes.len()
    &&& is_char_boundary(bytes, c.0 as int)
    &&& is_char_boundary(bytes, c.1 as int)
}

/// The glue that a cut adds: none at the very start or end of the text.
pub open spec fn glue_part(bytes: Seq<u8>, c: Cut) -> Seq<char> {
    if c.0 != 0 && c.1 != bytes.len() {
        c.2
    } else {
        seq![]
    }
}

/// The text from byte `cur` on, with each cut's span replaced by its glue.
/// A cut that does not fit is passed over.
pub open spec fn emit(bytes: Seq<u8>, cuts: Seq<Cut>, cur: int) -> Seq<char>
    decreases cuts.len(),
{
    if cuts.len() == 0 {
        chars_between(bytes, cur, bytes.len() as int)
    } else if cut_fits(bytes, cur, cuts[0]) {
        chars_between(bytes, cur, cuts[0].0 as int) + glue_part(bytes, cuts[0]) + emit(
            bytes,
            cuts.drop_first(),
            cuts[0].1 as int,
        )
    } else {
        emit(bytes, cuts.drop_first(), cur)
    }
}

/// The cuts that `emit` takes, in order.
pub open spec fn used_cuts(bytes: Seq<u8>, cuts: Seq<Cut>, cur: int) -> Seq<Cut>
    decreases cuts.len(),
{
    if cuts.len() == 0 {
        seq![]
    } else if cut_fits(bytes, cur, cuts[0]) {
        seq![cuts[0]] + used_cuts(bytes, cuts.drop_first(), cuts[0].1 as int)
    } else {
        used_cuts(bytes, cuts.drop_first(), cur)
    }
}

/// Monotone ordering: each cut that the emitter takes begins at or after the
/// end of the one before, and so no earlier than it; after a cut that
/// elides something, strictly later.
pub proof fn lemma_used_cuts_ordered(bytes: Seq<u8>, cuts: Seq<Cut>, cur: int)
    ensures
        forall|i: int| 0 <= i < used_cuts(bytes, cuts, cur).len() ==> cur <= (
        #[trigger] used_cuts(bytes, cuts, cur)[i]).0 <= used_cuts(bytes, cuts, cur)[i].1,
        forall|i: int, j: int|
            #![trigger used_cuts(bytes, cuts, cur)[i], used_cuts(bytes, cuts, cur)[j]]
            0 <= i < j < used_cuts(bytes, cuts, cur).len() ==> {
                let u = used_cuts(bytes, cuts, cur);
                &&& u[i].1 <= u[j].0
                &&& u[i].0 <= u[j].0
                &&& (u[i].0 < u[i].1 ==> u[i].0 < u[j].0)
            },
    decreases cuts.len(),
{
    if cuts.len() > 0 {
        let rest = cuts.drop_first();
        let u = used_cuts(bytes, cuts, cur);
        if cut_fits(bytes, cur, cuts[0]) {
            let e = cuts[0].1 as int;
            lemma_used_cuts_ordered(bytes, rest, e);
            let t = used_cuts(bytes, rest, e);
            assert(u == seq![cuts[0]] + t);
            assert forall|i: int| 0 <= i < u.len() implies cur <= (#[trigger] u[i]).0 <= u[i].1 by {
                if i > 0 {
                    assert(u[i] == t[i - 1]);
                }
            }
            assert forall|i: int, j: int| 0 <= i < j < u.len() implies {
                &&& (#[trigger] u[i]).1 <= (#[trigger] u[j]).0
                &&& u[i].0 <= u[j].0
                &&& (u[i].0 < u[i].1 ==> u[i].0 < u[j].0)
            } by {
                assert(u[j] == t[j - 1]);
                if i > 0 {
                    assert(u[i] == t[i - 1]);
                }
            }
        } else {
            lemma_used_cuts_ordered(bytes, rest, cur);
            assert(u == used_cuts(bytes, rest, cur));
        }
    }
}

/// The summed measure of the spans that the given cuts elide.
pub open spec fn span_measure(bytes: Seq<u8>, used: Seq<Cut>, m: spec_fn(Seq<char>) -> int) -> int
    decreases used.len(),
{
    if used.len() == 0 {
        0
    } else {
        m(chars_between(bytes, used[0].0 as int, used[0].1 as int)) + span_measure(
            bytes,
            used.drop_first(),
            m,
        )
    }
}

/// The summed measure of the glue that the given cuts insert.
pub open spec fn glue_measure(bytes: Seq<u8>, used: Seq<Cut>, m: spec_fn(Seq<char>) -> int) -> int
    decreases used.len(),
{
    if used.len() == 0 {
        0
    } else {
        m(glue_part(bytes, used[0])) + glue_measure(bytes, used.drop_first(), m)
    }
}

/// `m` adds up over concatenation.
pub open spec fn additive(m: spec_fn(Seq<char>) -> int) -> bool {
    forall|a: Seq<char>, b: Seq<char>| #[trigger] m(a + b) == m(a) + m(b)
}

/// Width conservation: under any additive measure, the emitted text minus
/// the glue it gained measures the same as the input minus the spans that
/// the breaks elided.
pub proof fn lemma_emit_conserves(
    bytes: Seq<u8>,
    cuts: Seq<Cut>,
    cur: int,
    m: spec_fn(Seq<char>) -> int,
)
    requires
        valid_utf8(bytes),
        0 <= cur <= bytes.len(),
        is_char_boundary(bytes, cur),
        additive(m),
    ensures
        m(emit(bytes, cuts, cur)) - glue_measure(bytes, used_cuts(bytes, cuts, cur), m) == m(
            chars_between(bytes, cur, bytes.len() as int),
        ) - span_measure(bytes, used_cuts(bytes, cuts, cur), m),
    decreases cuts.len(),
{
    if cuts.len() > 0 {
        let rest = cuts.drop_first();
        let c = cuts[0];
        if cut_fits(bytes, cur, c) {
            let len = bytes.len() as int;
            is_char_boundary_start_end_of_seq(bytes);
            lemma_emit_conserves(bytes, rest, c.1 as int, m);
            lemma_chars_between_split(bytes, cur, c.0 as int, len);
            lemma_chars_between_split(bytes, c.0 as int, c.1 as int, len);
            let u = used_cuts(bytes, cuts, cur);
            assert(u.drop_first() == used_cuts(bytes, rest, c.1 as int));
            let p = chars_between(bytes, cur, c.0 as int);
            let g = glue_part(bytes, c);
            let e = emit(bytes, rest, c.1 as int);
            assert(m(p + g + e) == m(p + g) + m(e));
            assert(m(p + g) == m(p) + m(g));
            let sp = chars_between(bytes, c.0 as int, c.1 as int);
            let tl = chars_between(bytes, c.1 as int, len);
            assert(m(p + (sp + tl)) == m(p) + m(sp + tl));
            assert(m(sp + tl) == m(sp) + m(tl));
        } else {
            lemma_emit_conserves(bytes, rest, cur, m);
        }
    } else {
        assert(used_cuts(bytes, cuts, cur) =~= Seq::<Cut>::empty());
    }
}

/// Width conservation in the columns of `unicode-width`: the emitted text
/// minus its inserted glue is exactly as wide as the input minus the elided
/// spans.
pub proof fn lemma_emit_conserves_columns(bytes: Seq<u8>, cuts: Seq<Cut>)
    requires
        valid_utf8(bytes),
    ensures
        ({
            let m = |s: Seq<char>| display_width(s) as int;
            let used = used_cuts(bytes, cuts, 0);
            m(emit(bytes, cuts, 0)) - glue_measure(bytes, used, m) == m(
                chars_between(bytes, 0, bytes.len() as int),
            ) - span_measure(bytes, used, m)
        }),
{
    let m = |s: Seq<char>| display_width(s) as int;
    assert forall|a: Seq<char>, b: Seq<char>| #[trigger] m(a + b) == m(a) + m(b) by {
        lemma_display_width_additive(a, b);
    }
    is_char_boundary_start_end_of_seq(bytes);
    lemma_emit_conserves(bytes, cuts, 0, m);
}

/// Emits `line` with the chosen and the forced breaks applied, in order of
/// their start.
pub fn emit_cuts(
    line: &str,
    s: &Vec<SplitPoint>,
    chosen: &Vec<usize>,
    forced: &Vec<usize>,
    glue: &str,
) -> (r: String)
    requires
        forall|k: int| 0 <= k < chosen@.len() ==> (#[trigger] chosen@[k]) < s@.len(),
    ensures
        r@ == emit(
            line.spec_bytes(),
            merge_cuts(real_cuts(s@, chosen@), forced_cuts(forced@, glue@)),
            0,
        ),
{
    let ghost bytes = line.spec_bytes();
    let ghost taken = real_cuts(s@, chosen@);
    let ghost forc = forced_cuts(forced@, glue@);
    let ghost whole = emit(bytes, merge_cuts(taken, forc), 0);
    let len = line.as_bytes().len();
    let mut out = String::new();
    let mut cur: usize = 0;
    let mut i: usize = 0;
    let mut j: usize = 0;
    proof {
        encode_utf8_valid_utf8(line@);
        is_char_boundary_start_end_of_seq(bytes);
        assert(taken.skip(0) =~= taken);
        assert(forc.skip(0) =~= forc);
        assert(out@ + emit(bytes, merge_cuts(taken.skip(0), forc.skip(0)), 0) =~= whole);
    }
    while i < chosen.len() || j < forced.len()
        invariant
            bytes == line.spec_bytes(),
            len == bytes.len(),
            taken == real_cuts(s@, chosen@),
            forc == forced_cuts(forced@, glue@),
            forall|k: int| 0 <= k < chosen@.len() ==> (#[trigger] chosen@[k]) < s@.len(),
            0 <= i <= chosen@.len(),
            0 <= j <= forced@.len(),
            cur <= len,
            is_char_boundary(bytes, cur as int),
            out@ + emit(bytes, merge_cuts(taken.skip(i as int), forc.skip(j as int)), cur as int)
                == whole,
        decreases chosen@.len() - i + forced@.len() - j,
    {
        let ghost a = taken.skip(i as int);
        let ghost b = forc.skip(j as int);
        let take_real = if i < chosen.len() {
            if j < forced.len() {
                s[chosen[i]].start.0 < forced[j]
            } else {
                true
            }
        } else {
            false
        };
        let st: usize;
        let en: usize;
        let g: &str;
        if take_real {
            let k = chosen[i];
            st = s[k].start.0;
            en = s[k].end.0;
            g = s[k].glue.as_str();
            proof {
                assert(a[0] == taken[i as int]);
                assert(a.drop_first() =~= taken.skip(i + 1));
                assert(merge_cuts(a, b) == seq![a[0]] + merge_cuts(a.drop_first(), b));
            }
            i = i + 1;
        } else {
            st = forced[j];
            en = forced[j];
            g = glue;
            proof {
                assert(b[0] == forc[j as int]);
                assert(b.drop_first() =~= forc.skip(j + 1));
                assert(merge_cuts(a, b) == seq![b[0]] + merge_cuts(a, b.drop_first()));
            }
            j = j + 1;
        }
        let ghost c: Cut = (st, en, g@);
        let ghost rest = merge_cuts(taken.skip(i as int), forc.skip(j as int));
        proof {
            assert(merge_cuts(a, b) == seq![c] + rest);
            assert((seq![c] + rest).drop_first() =~= rest);
        }
        if cur <= st && st <= en && en <= len && line.is_char_boundary(st)
            && line.is_char_boundary(en) {
            let piece = slice(line, cur, st);
            out.append(piece);
            if st != 0 && en != len {
                out.append(g);
            }
            proof {
                assert(out@ + emit(bytes, rest, en as int) =~= whole);
            }
            cur = en;
        }
    }
    let tail = slice(line, cur, len);
    out.append(tail);
    proof {
        assert(taken.skip(i as int) =~= Seq::<Cut>::empty());
        assert(forc.skip(j as int) =~= Seq::<Cut>::empty());
    }
    out
}

} // verus!
