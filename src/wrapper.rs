use vstd::prelude::*;
use vstd::string::*;
use vstd::utf8::*;

use crate::coordinates::{byte_to_width, coordinates, text_width, width_to_byte};
use crate::emit::{
    additive, emit, emit_cuts, forced_cuts, glue_measure, lemma_emit_conserves, lemma_used_cuts_ordered,
    merge_cuts, real_cuts, span_measure, used_cuts, Cut,
};
use crate::text::chars_between;
use crate::filter::{run_all, Filter, FilterRule};
use crate::generator::{lies_within, Generate, Generator};
use crate::offset::{step_down, WidthOffset};
use crate::ruler::TextWidth;
use crate::selection::{
    all_widths_set, lemma_break_word_succeeds, lemma_sorted_widths, select, select_cuts, sort_splits, sorted_splits,
};
use crate::split_point::SplitPoint;

verus! {

broadcast use vstd::string::group_string_axioms;

/// A configuration that cannot be used.
#[derive(PartialEq, Eq, Structural, Clone, Copy, Debug)]
pub enum ConfigError {
    /// The target width is zero.
    WidthZero,
}

impl ConfigError {
    /// A description of the error.
    pub fn message(&self) -> (r: &'static str)
        ensures
            r@ == "Wrapper.width cannot be zero"@,
    {
        match self {
            ConfigError::WidthZero => "Wrapper.width cannot be zero",
        }
    }
}

/// A text that cannot be wrapped.
#[derive(PartialEq, Eq, Structural, Clone, Copy, Debug)]
pub enum WrapError {
    /// A line has no usable break within the width, and words may not be
    /// broken.
    NoValidBreak,
    /// A width in the text does not fit in `usize`.
    WidthOverflow,
}

impl WrapError {
    /// A description of the error.
    pub fn message(&self) -> (r: &'static str)
        ensures
            *self == WrapError::NoValidBreak ==> r@ == "No valid split point found"@,
            *self == WrapError::WidthOverflow ==> r@ == "Text width does not fit in usize"@,
    {
        match self {
            WrapError::NoValidBreak => "No valid split point found",
            WrapError::WidthOverflow => "Text width does not fit in usize",
        }
    }
}

/// The column that a point reaches: the width up to its start plus that of
/// its glue.
pub open spec fn reach<R: TextWidth>(ruler: &R, b2w: Map<usize, usize>, s: SplitPoint) -> int {
    step_down(b2w, s.start.0) + ruler.spec_measure(s.glue@)
}

/// `s` with its width set to its reach.
pub open spec fn widened<R: TextWidth>(ruler: &R, b2w: Map<usize, usize>, s: SplitPoint) -> SplitPoint {
    SplitPoint { width: Some(WidthOffset(reach(ruler, b2w, s) as usize)), ..s }
}

/// The outcome of wrapping `line` with the given points as candidates.
///
/// A text that fits is returned as it is. Otherwise each point gets its
/// width, the filters run in order, the points are sorted, breaks are chosen
/// line by line and the text is emitted with them.
pub open spec fn layout<R: TextWidth>(
    ruler: &R,
    width: usize,
    filters: Seq<FilterRule>,
    break_word: bool,
    glue: Seq<char>,
    line: &str,
    points: Seq<SplitPoint>,
) -> Result<Seq<char>, WrapError> {
    let total = text_width(ruler, line);
    let b2w = byte_to_width(ruler, line);
    let w2b = width_to_byte(ruler, line);
    if total > usize::MAX {
        Err(WrapError::WidthOverflow)
    } else if total <= width {
        Ok(line@)
    } else if exists|i: int| 0 <= i < points.len() && reach(ruler, b2w, #[trigger] points[i]) > usize::MAX {
        Err(WrapError::WidthOverflow)
    } else {
        let s = sorted_splits(
            run_all(filters, line, points.map_values(|p: SplitPoint| widened(ruler, b2w, p))),
        );
        match select(ruler, s, b2w, w2b, total as int, width as int, break_word, 0, 0, seq![], seq![]) {
            None => Err(WrapError::NoValidBreak),
            Some((cuts, forced)) => Ok(
                emit(line.spec_bytes(), merge_cuts(real_cuts(s, cuts), forced_cuts(forced, glue)), 0),
            ),
        }
    }
}

/// Width conservation and monotone ordering for a wrapped text: whenever
/// `layout` succeeds, its output is `emit` of some list of cuts; each cut that
/// emission takes begins at or after the end of the one before; and under
/// every measure that adds up over concatenation, the output less the glue
/// it gained measures the same as the input less the spans it lost.
pub proof fn lemma_layout_emits<R: TextWidth>(
    ruler: &R,
    width: usize,
    filters: Seq<FilterRule>,
    break_word: bool,
    glue: Seq<char>,
    line: &str,
    points: Seq<SplitPoint>,
)
    requires
        layout(ruler, width, filters, break_word, glue, line, points) is Ok,
    ensures
        exists|cuts: Seq<Cut>|
            #![trigger emit(line.spec_bytes(), cuts, 0)]
            {
                let b = line.spec_bytes();
                let u = used_cuts(b, cuts, 0);
                &&& layout(ruler, width, filters, break_word, glue, line, points) == Ok::<
                    Seq<char>,
                    WrapError,
                >(emit(b, cuts, 0))
                &&& forall|i: int, j: int|
                    0 <= i < j < u.len() ==> (#[trigger] u[i]).1 <= (#[trigger] u[j]).0
                &&& forall|m: spec_fn(Seq<char>) -> int|
                    #[trigger] additive(m) ==> m(emit(b, cuts, 0)) - glue_measure(b, u, m) == m(
                        line@,
                    ) - span_measure(b, u, m)
            },
{
    let b = line.spec_bytes();
    encode_utf8_valid_utf8(line@);
    encode_utf8_decode_utf8(line@);
    is_char_boundary_start_end_of_seq(b);
    assert(b.subrange(0, b.len() as int) =~= b);
    assert(chars_between(b, 0, b.len() as int) == line@);
    let total = text_width(ruler, line);
    let b2w = byte_to_width(ruler, line);
    let cuts: Seq<Cut> = if total <= width {
        seq![]
    } else {
        let s = sorted_splits(
            run_all(filters, line, points.map_values(|p: SplitPoint| widened(ruler, b2w, p))),
        );
        let (c, f) = select(
            ruler,
            s,
            b2w,
            width_to_byte(ruler, line),
            total as int,
            width as int,
            break_word,
            0,
            0,
            seq![],
            seq![],
        )->0;
        merge_cuts(real_cuts(s, c), forced_cuts(f, glue))
    };
    lemma_used_cuts_ordered(b, cuts, 0);
    assert forall|m: spec_fn(Seq<char>) -> int| #[trigger] additive(m) implies m(emit(b, cuts, 0))
        - glue_measure(b, used_cuts(b, cuts, 0), m) == m(line@) - span_measure(
        b,
        used_cuts(b, cuts, 0),
        m,
    ) by {
        lemma_emit_conserves(b, cuts, 0, m);
    }
    if total <= width {
        assert(emit(b, cuts, 0) == line@);
    }
}

/// An executable result agrees with a spec result.
pub open spec fn agrees(r: Result<String, WrapError>, o: Result<Seq<char>, WrapError>) -> bool {
    match (r, o) {
        (Ok(a), Ok(b)) => a@ == b,
        (Err(e), Err(f)) => e == f,
        _ => false,
    }
}

/// The concatenation of the outputs of the generators, each an output that
/// its generator may give on `line`.
pub open spec fn harvest_of(generators: Seq<Generator>, line: &str, points: Seq<SplitPoint>) -> bool
    decreases generators.len(),
{
    if generators.len() == 0 {
        points.len() == 0
    } else {
        exists|k: int|
            0 <= k <= points.len() && harvest_of(generators.drop_last(), line, points.take(k))
                && generators.last().produces(line, points.skip(k))
                && forall|i: int| k <= i < points.len() ==> lies_within(#[trigger] points[i], line)
    }
}

/// The line-wrapping engine.
pub struct Wrapper<R> {
    width: usize,
    generators: Vec<Generator>,
    filters: Vec<FilterRule>,
    ruler: R,
    break_word: bool,
    glue: String,
}

impl<R> Wrapper<R> {
    /// The target width is never zero.
    #[verifier::type_invariant]
    spec fn inv(&self) -> bool {
        self.width > 0
    }
}

impl<R: TextWidth> Wrapper<R> {
    pub closed spec fn spec_width(&self) -> usize {
        self.width
    }

    pub closed spec fn spec_generators(&self) -> Seq<Generator> {
        self.generators@
    }

    pub closed spec fn spec_filters(&self) -> Seq<FilterRule> {
        self.filters@
    }

    pub closed spec fn spec_ruler(&self) -> R {
        self.ruler
    }

    pub closed spec fn spec_break_word(&self) -> bool {
        self.break_word
    }

    pub closed spec fn spec_glue(&self) -> Seq<char> {
        self.glue@
    }

    /// A wrapper for lines of `width` columns; the glue of forced breaks is
    /// a newline. Fails on a zero width.
    pub fn new(
        width: usize,
        generators: Vec<Generator>,
        filters: Vec<FilterRule>,
        ruler: R,
        break_word: bool,
    ) -> (r: Result<Wrapper<R>, ConfigError>)
        ensures
            width == 0 <==> r is Err,
            r matches Err(e) ==> e == ConfigError::WidthZero,
            r matches Ok(w) ==> {
                &&& w.spec_width() == width
                &&& w.spec_generators() == generators@
                &&& w.spec_filters() == filters@
                &&& w.spec_ruler() == ruler
                &&& w.spec_break_word() == break_word
                &&& w.spec_glue() == seq!['\n']
            },
    {
        if width == 0 {
            return Err(ConfigError::WidthZero);
        }
        let glue = "\n".to_string();
        proof {
            reveal_strlit("\n");
        }
        Ok(Wrapper { width, generators, filters, ruler, break_word, glue })
    }

    /// The target width.
    pub fn width(&self) -> (r: usize)
        ensures
            r == self.spec_width(),
            r > 0,
    {
        proof {
            use_type_invariant(self);
        }
        self.width
    }

    /// Changes the target width; a zero width is refused and changes
    /// nothing.
    pub fn set_width(&mut self, width: usize) -> (r: Result<(), ConfigError>)
        ensures
            width == 0 <==> r is Err,
            r matches Err(e) ==> e == ConfigError::WidthZero && *final(self) == *old(self),
            r is Ok ==> {
                &&& final(self).spec_width() == width
                &&& final(self).spec_generators() == old(self).spec_generators()
                &&& final(self).spec_filters() == old(self).spec_filters()
                &&& final(self).spec_ruler() == old(self).spec_ruler()
                &&& final(self).spec_break_word() == old(self).spec_break_word()
                &&& final(self).spec_glue() == old(self).spec_glue()
            },
    {
        if width == 0 {
            return Err(ConfigError::WidthZero);
        }
        self.width = width;
        Ok(())
    }

    /// The candidates of all generators, in order.
    fn harvest(&self, line: &str) -> (r: Vec<SplitPoint>)
        ensures
            harvest_of(self.generators@, line, r@),
    {
        let mut out: Vec<SplitPoint> = Vec::new();
        let mut i: usize = 0;
        proof {
            assert(self.generators@.take(0) =~= Seq::<Generator>::empty());
        }
        while i < self.generators.len()
            invariant
                0 <= i <= self.generators@.len(),
                harvest_of(self.generators@.take(i as int), line, out@),
            decreases self.generators@.len() - i,
        {
            let mut points = self.generators[i].opportunities(line);
            let ghost before = out@;
            let ghost got = points@;
            out.append(&mut points);
            proof {
                let gs = self.generators@.take(i + 1);
                assert(gs.drop_last() =~= self.generators@.take(i as int));
                assert(gs.last() == self.generators@[i as int]);
                let k = before.len() as int;
                assert(out@.take(k) =~= before);
                assert(out@.skip(k) =~= got);
                assert(forall|m: int| k <= m < out@.len() ==> #[trigger] out@[m] == got[m - k]);
                assert(0 <= k <= out@.len() && harvest_of(gs.drop_last(), line, out@.take(k))
                    && gs.last().produces(line, out@.skip(k))
                    && forall|m: int| k <= m < out@.len() ==> lies_within(#[trigger] out@[m], line));
            }
            i = i + 1;
        }
        proof {
            assert(self.generators@.take(i as int) =~= self.generators@);
        }
        out
    }

    /// Everything after the short cut: widths, filters, sorting, selection
    /// and emission.
    fn finish(
        &self,
        line: &str,
        b2w: &std::collections::HashMap<usize, usize>,
        w2b: &std::collections::HashMap<usize, usize>,
        total: usize,
        points: Vec<SplitPoint>,
    ) -> (r: Result<String, WrapError>)
        requires
            b2w@ == byte_to_width(&self.ruler, line),
            w2b@ == width_to_byte(&self.ruler, line),
            total == text_width(&self.ruler, line),
            total > self.width,
        ensures
            agrees(r, self.spec_layout(line, points@)),
            self.break_word ==> r != Err::<String, WrapError>(WrapError::NoValidBreak),
    {
        proof {
            use_type_invariant(self);
        }
        let ghost pts = points@;
        let ghost widened_all = pts.map_values(|p: SplitPoint| widened(&self.ruler, b2w@, p));
        let mut splits = points;
        let mut i: usize = 0;
        while i < splits.len()
            invariant
                b2w@ == byte_to_width(&self.ruler, line),
                total == text_width(&self.ruler, line),
                total > self.width,
                pts == points@,
                splits@.len() == pts.len(),
                0 <= i <= pts.len(),
                widened_all == pts.map_values(|p: SplitPoint| widened(&self.ruler, b2w@, p)),
                forall|m: int| 0 <= m < i ==> #[trigger] splits@[m] == widened_all[m],
                forall|m: int| i <= m < pts.len() ==> #[trigger] splits@[m] == pts[m],
                forall|m: int| 0 <= m < i ==> reach(&self.ruler, b2w@, #[trigger] pts[m]) <= usize::MAX,
            decreases pts.len() - i,
        {
            let w = splits[i].start.to_width(b2w).0;
            let g = self.ruler.measure(splits[i].glue.as_str());
            if g > usize::MAX - w {
                proof {
                    assert(reach(&self.ruler, b2w@, pts[i as int]) > usize::MAX);
                    assert(exists|j: int|
                        0 <= j < pts.len() && reach(&self.ruler, b2w@, #[trigger] pts[j])
                            > usize::MAX);

                }
                return Err(WrapError::WidthOverflow);
            }
            splits[i].width = Some(WidthOffset(w + g));
            i = i + 1;
        }
        proof {
            assert(splits@ =~= widened_all);
            assert(all_widths_set(splits@));
        }
        let mut f: usize = 0;
        proof {
            assert(self.filters@.take(0) =~= Seq::<FilterRule>::empty());
        }
        while f < self.filters.len()
            invariant
                0 <= f <= self.filters@.len(),
                splits@ == run_all(self.filters@.take(f as int), line, widened_all),
                all_widths_set(splits@),
            decreases self.filters@.len() - f,
        {
            let ghost before = splits@;
            self.filters[f].run(line, &mut splits);
            proof {
                let fs = self.filters@.take(f + 1);
                assert(fs.drop_last() =~= self.filters@.take(f as int));
                assert(fs.last() == self.filters@[f as int]);
                assert forall|m: int| 0 <= m < splits@.len() implies (#[trigger] splits@[m]).width is Some by {
                    assert(before[m].width is Some);
                }
            }
            f = f + 1;
        }
        proof {
            assert(self.filters@.take(f as int) =~= self.filters@);
            lemma_sorted_widths(splits@);
        }
        let sorted = sort_splits(splits);
        proof {
            lemma_break_word_succeeds(
                &self.ruler,
                sorted@,
                b2w@,
                w2b@,
                total as int,
                self.width as int,
                0,
                0,
                seq![],
                seq![],
            );
        }
        match select_cuts(&self.ruler, &sorted, b2w, w2b, total, self.width, self.break_word) {
            None => Err(WrapError::NoValidBreak),
            Some((cuts, forced)) => Ok(emit_cuts(line, &sorted, &cuts, &forced, self.glue.as_str())),
        }
    }

    /// The outcome of wrapping `line` with `points` as the candidates.
    pub open spec fn spec_layout(&self, line: &str, points: Seq<SplitPoint>) -> Result<
        Seq<char>,
        WrapError,
    > {
        layout(
            &self.spec_ruler(),
            self.spec_width(),
            self.spec_filters(),
            self.spec_break_word(),
            self.spec_glue(),
            line,
            points,
        )
    }

    /// Wraps `line` with `points` as the candidate breaks, in place of what
    /// the generators would offer.
    pub fn wrap_with(&self, line: &str, points: Vec<SplitPoint>) -> (r: Result<String, WrapError>)
        ensures
            agrees(r, self.spec_layout(line, points@)),
            self.spec_break_word() ==> r != Err::<String, WrapError>(WrapError::NoValidBreak),
    {
        match coordinates(line, &self.ruler) {
            None => Err(WrapError::WidthOverflow),
            Some((b2w, w2b, total)) => {
                if total <= self.width {
                    return Ok(line.to_owned());
                }
                self.finish(line, &b2w, &w2b, total, points)
            },
        }
    }

    /// Wraps `line` so that each line fits in the width.
    pub fn wrap(&self, line: &str) -> (r: Result<String, WrapError>)
        ensures
            text_width(&self.spec_ruler(), line) > usize::MAX ==> r == Err::<String, WrapError>(
                WrapError::WidthOverflow,
            ),
            text_width(&self.spec_ruler(), line) <= self.spec_width() ==> (r matches Ok(s)
                && s@ == line@),
            self.spec_break_word() ==> r != Err::<String, WrapError>(WrapError::NoValidBreak),
            text_width(&self.spec_ruler(), line) <= usize::MAX && text_width(&self.spec_ruler(), line)
                > self.spec_width() ==> exists|h: Seq<SplitPoint>|
                harvest_of(self.spec_generators(), line, h) && agrees(r, self.spec_layout(line, h)),
    {
        match coordinates(line, &self.ruler) {
            None => Err(WrapError::WidthOverflow),
            Some((b2w, w2b, total)) => {
                if total <= self.width {
                    return Ok(line.to_owned());
                }
                let points = self.harvest(line);
                let ghost h = points@;
                let r = self.finish(line, &b2w, &w2b, total, points);
                proof {
                    assert(harvest_of(self.spec_generators(), line, h) && agrees(
                        r,
                        self.spec_layout(line, h),
                    ));
                }
                r
            },
        }
    }
}

} // verus!
