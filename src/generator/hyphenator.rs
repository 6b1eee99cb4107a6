use unicode_segmentation::UnicodeSegmentation;
use vstd::prelude::*;
use vstd::std_specs::iter::IteratorSpec;
use vstd::string::*;
use vstd::utf8::*;

use super::{has_shape, lies_within, Generate};
use crate::coordinates::{
    cluster_start, lemma_cluster_start_monotone, lemma_cluster_start_step, views_of,
};
use crate::split_point::SplitPoint;
use crate::text::joined;
use crate::util::is_break_space;

verus! {

broadcast use vstd::string::group_string_axioms;

#[verifier::external_type_specification]
#[verifier::external_body]
pub struct ExStandard(hyphenation::Standard);

/// The word-boundary segments of a text as `unicode-segmentation` finds
/// them.
pub uninterp spec fn word_segments(text: Seq<char>) -> Seq<Seq<char>>;

/// Relies on `unicode_segmentation::UnicodeSegmentation::split_word_bounds`:
/// the segments between word boundaries, in order, which together spell the
/// text.
#[verifier::external_body]
fn word_bounds(text: &str) -> (r: Vec<&str>)
    ensures
        views_of(r@) == word_segments(text@),
        joined(views_of(r@)) == text@,
{
    text.split_word_bounds().collect()
}

/// The numbers of characters at the start and at the end of a word where a
/// dictionary allows no break.
pub uninterp spec fn dictionary_minima(corpus: hyphenation::Standard) -> (usize, usize);

/// Relies on the public field `hyphenation::Standard::minima`.
#[verifier::external_body]
fn minima(corpus: &hyphenation::Standard) -> (r: (usize, usize))
    ensures
        r == dictionary_minima(*corpus),
{
    corpus.minima
}

/// A word that the dictionary can take without failing: its minima add up
/// without overflow, and it has more characters than the start minimum and
/// at least as many as both minima together.
pub open spec fn fits_minima(word: Seq<char>, m: (usize, usize)) -> bool {
    &&& m.0 + m.1 <= usize::MAX
    &&& word.len() >= m.0 + m.1
    &&& word.len() > m.0
}

/// The byte offsets in a word where a dictionary allows a hyphen.
pub uninterp spec fn dictionary_hyphenation(corpus: hyphenation::Standard, word: Seq<char>) -> Seq<
    usize,
>;

/// Relies on `hyphenation::Hyphenator::hyphenate` for a `Standard`
/// dictionary: the byte offsets in `word` where the dictionary allows a
/// hyphen, which depend on the dictionary and the word alone. The call
/// unwraps the character at the start minimum, and its case folding changes
/// the number of characters only where U+0307 follows an `i`; hence the
/// conditions.
#[verifier::external_body]
fn dictionary_breaks(corpus: &hyphenation::Standard, word: &str) -> (r: Vec<usize>)
    requires
        fits_minima(word@, dictionary_minima(*corpus)),
        forall|i: int| 0 <= i < word@.len() ==> #[trigger] word@[i] != '\u{307}',
    ensures
        r@ == dictionary_hyphenation(*corpus, word@),
{
    hyphenation::Hyphenator::hyphenate(corpus, word).breaks
}

/// Characters that keep a segment from being hyphenated: spaces, line
/// terminators, hyphens or hyphenation marks already in the text, and the
/// combining dot above (U+0307), which the dictionary's case folding may
/// drop.
pub open spec fn blocks_hyphenation(c: char) -> bool {
    is_break_space(c) || c == '\n' || c == '\u{0B}' || c == '\u{0C}' || c == '\r' || c == '\u{85}'
        || c == '\u{2029}' || c == '-' || c == '\u{AD}' || c == '\u{2010}' || c == '\u{2011}' || c
        == '\u{2027}' || c == '\u{307}'
}

/// Whether no character of `word` blocks hyphenation, and the number of its
/// characters.
fn scan_word(word: &str) -> (r: (bool, usize))
    ensures
        r.0 == forall|i: int| 0 <= i < word@.len() ==> !blocks_hyphenation(#[trigger] word@[i]),
        r.1 == word@.len(),
{
    let ghost t = word@;
    let n = word.as_bytes().len();
    proof {
        crate::chars::lemma_char_offset_bounds(t, t.len() as int);
        assert(t.take(t.len() as int) =~= t);
    }
    let mut it = word.chars();
    let mut k: usize = 0;
    let mut clear = true;
    loop
        invariant
            t == word@,
            t.len() <= n,
            0 <= k <= t.len(),
            it.remaining() == t.skip(k as int),
            clear == forall|i: int| 0 <= i < k ==> !blocks_hyphenation(#[trigger] t[i]),
        decreases t.len() - k,
    {
        match it.next() {
            Some(c) => {
                assert(c == t[k as int]);
                if is_blocking(c) {
                    clear = false;
                }
                proof {
                    assert(t.skip(k + 1) =~= t.skip(k as int).drop_first());
                    assert forall|i: int| 0 <= i < k + 1 && clear implies !blocks_hyphenation(
                        #[trigger] t[i],
                    ) by {}
                }
                k = k + 1;
            },
            None => {
                assert(t.skip(k as int).len() == 0);
                return (clear, k);
            },
        }
    }
}

fn is_blocking(c: char) -> (r: bool)
    ensures
        r == blocks_hyphenation(c),
{
    crate::util::char_is_whitespace(&c) || c == '\n' || c == '\u{0B}' || c == '\u{0C}' || c == '\r'
        || c == '\u{85}' || c == '\u{2029}' || c == '-' || c == '\u{AD}' || c == '\u{2010}' || c
        == '\u{2011}' || c == '\u{2027}' || c == '\u{307}'
}

/// The breaks of a word that are kept: those strictly inside it and on a
/// character boundary of its bytes, in order.
pub open spec fn kept_breaks(word: Seq<u8>, breaks: Seq<usize>) -> Seq<usize>
    decreases breaks.len(),
{
    if breaks.len() == 0 {
        seq![]
    } else {
        let k = kept_breaks(word, breaks.drop_last());
        let o = breaks.last();
        if 0 < o < word.len() && is_char_boundary(word, o as int) {
            k.push(o)
        } else {
            k
        }
    }
}

/// Offsets moved by `off`.
pub open spec fn shifted(off: int, offsets: Seq<usize>) -> Seq<int> {
    offsets.map_values(|o: usize| off + o)
}

/// `points` are empty spans at `offsets`, in order, with the given glue and
/// priority.
pub open spec fn points_at(points: Seq<SplitPoint>, offsets: Seq<int>, glue: Seq<char>, priority: int) -> bool {
    &&& points.len() == offsets.len()
    &&& forall|i: int|
        0 <= i < points.len() ==> has_shape(
            #[trigger] points[i],
            offsets[i],
            offsets[i],
            glue,
            false,
            priority,
        )
}

/// A segment that is handed to the dictionary.
pub open spec fn eligible(segment: Seq<char>, m: (usize, usize)) -> bool {
    &&& forall|k: int| 0 <= k < segment.len() ==> !blocks_hyphenation(#[trigger] segment[k])
    &&& fits_minima(segment, m)
}

/// The offsets of the points for the first `i` segments, where `breaks[j]`
/// is what the dictionary gave for segment `j`; a segment that is not
/// eligible gives none.
pub open spec fn hyphen_offsets(
    segments: Seq<Seq<char>>,
    breaks: Seq<Seq<usize>>,
    m: (usize, usize),
    i: int,
) -> Seq<int>
    decreases i,
{
    if i <= 0 {
        seq![]
    } else {
        hyphen_offsets(segments, breaks, m, i - 1) + if eligible(segments[i - 1], m) {
            shifted(
                cluster_start(segments, i - 1),
                kept_breaks(encode_utf8(segments[i - 1]), breaks[i - 1]),
            )
        } else {
            seq![]
        }
    }
}

proof fn lemma_points_at_append(
    a: Seq<SplitPoint>,
    oa: Seq<int>,
    b: Seq<SplitPoint>,
    ob: Seq<int>,
    glue: Seq<char>,
    priority: int,
)
    requires
        points_at(a, oa, glue, priority),
        points_at(b, ob, glue, priority),
    ensures
        points_at(a + b, oa + ob, glue, priority),
{
    assert forall|i: int| 0 <= i < a.len() + b.len() implies has_shape(
        #[trigger] (a + b)[i],
        (oa + ob)[i],
        (oa + ob)[i],
        glue,
        false,
        priority,
    ) by {
        if i < a.len() {
            assert((a + b)[i] == a[i]);
        } else {
            assert((a + b)[i] == b[i - a.len()]);
        }
    }
}

/// Breaks inside words where a hyphenation dictionary allows them.
#[derive(Debug)]
pub struct Hyphenator {
    pub priority: usize,
    pub corpus: hyphenation::Standard,
    pub glue: String,
}

impl Hyphenator {
    /// The points for the breaks `breaks` that the dictionary gave for
    /// `word`, which starts at byte `off` of the text: one empty span at
    /// `off + o` for each break `o` strictly inside the word and on a
    /// character boundary, in order, with this generator's glue and
    /// priority.
    pub fn word_points(&self, off: usize, word: &str, breaks: &Vec<usize>) -> (r: Vec<SplitPoint>)
        requires
            off + word.spec_bytes().len() <= usize::MAX,
        ensures
            points_at(
                r@,
                shifted(off as int, kept_breaks(word.spec_bytes(), breaks@)),
                self.glue@,
                self.priority as int,
            ),
    {
        let wlen = word.as_bytes().len();
        let mut out: Vec<SplitPoint> = Vec::new();
        let mut j: usize = 0;
        proof {
            assert(breaks@.take(0) =~= Seq::<usize>::empty());
        }
        while j < breaks.len()
            invariant
                wlen == word.spec_bytes().len(),
                off + wlen <= usize::MAX,
                0 <= j <= breaks@.len(),
                points_at(
                    out@,
                    shifted(off as int, kept_breaks(word.spec_bytes(), breaks@.take(j as int))),
                    self.glue@,
                    self.priority as int,
                ),
            decreases breaks@.len() - j,
        {
            let o = breaks[j];
            proof {
                let t = breaks@.take(j + 1);
                assert(t.drop_last() =~= breaks@.take(j as int));
                assert(t.last() == o);
            }
            let ghost before = out@;
            if 0 < o && o < wlen && word.is_char_boundary(o) {
                let mut p = SplitPoint::new(off + o, off + o, self.priority);
                p.glue = self.glue.clone();
                out.push(p);
                proof {
                    let k = kept_breaks(word.spec_bytes(), breaks@.take(j as int));
                    assert(shifted(off as int, k.push(o)) =~= shifted(off as int, k).push(off + o));
                    assert forall|i: int| 0 <= i < out@.len() implies has_shape(
                        #[trigger] out@[i],
                        shifted(off as int, k.push(o))[i],
                        shifted(off as int, k.push(o))[i],
                        self.glue@,
                        false,
                        self.priority as int,
                    ) by {
                        if i < before.len() {
                            assert(out@[i] == before[i]);
                        }
                    }
                }
            }
            j = j + 1;
        }
        proof {
            assert(breaks@.take(breaks@.len() as int) =~= breaks@);
        }
        out
    }
}

impl Generate for Hyphenator {
    /// The points are, segment by segment of the text's word segments, those
    /// of `word_points` for each eligible segment, for the breaks that the
    /// dictionary gives for it.
    open spec fn produces(&self, text: &str, points: Seq<SplitPoint>) -> bool {
        let g = word_segments(text@);
        points_at(
            points,
            hyphen_offsets(
                g,
                Seq::new(g.len(), |i: int| dictionary_hyphenation(self.corpus, g[i])),
                dictionary_minima(self.corpus),
                g.len() as int,
            ),
            self.glue@,
            self.priority as int,
        )
    }

    fn opportunities(&self, text: &str) -> (r: Vec<SplitPoint>) {
        let words = word_bounds(text);
        let ghost g = views_of(words@);
        assert(g == word_segments(text@));
        let m = minima(&self.corpus);
        let len = text.as_bytes().len();
        let mut out: Vec<SplitPoint> = Vec::new();
        let mut off: usize = 0;
        let mut i: usize = 0;
        let ghost mut got: Seq<Seq<usize>> = seq![];
        proof {
            assert(g.take(g.len() as int) =~= g);
            assert(words@.len() == g.len());
        }
        while i < words.len()
            invariant
                g == views_of(words@),
                g == word_segments(text@),
                m == dictionary_minima(self.corpus),
                joined(g) == text@,
                len == text.spec_bytes().len(),
                0 <= i <= words@.len(),
                off == cluster_start(g, i as int),
                got.len() == i,
                forall|q: int| 0 <= q < i ==> #[trigger] got[q] == dictionary_hyphenation(self.corpus, g[q]),
                points_at(out@, hyphen_offsets(g, got, m, i as int), self.glue@, self.priority as int),
                forall|q: int| 0 <= q < out@.len() ==> lies_within(#[trigger] out@[q], text),
            decreases words@.len() - i,
        {
            let word = words[i];
            proof {
                assert(word@ == g[i as int]);
                lemma_cluster_start_step(g, i as int);
                lemma_cluster_start_monotone(g, i + 1, g.len() as int);
                assert(g.take(g.len() as int) =~= g);
                assert(cluster_start(g, g.len() as int) == len);
            }
            let wlen = word.len();
            let (clear, n) = scan_word(word);
            let ghost before = out@;
            let ghost got_before = got;
            if clear && m.0 <= usize::MAX - m.1 && n >= m.0 + m.1 && n > m.0 {
                let breaks = dictionary_breaks(&self.corpus, word);
                let mut pts = self.word_points(off, word, &breaks);
                let ghost added = pts@;
                out.append(&mut pts);
                proof {
                    got = got.push(breaks@);
                    assert(got.take(i as int) =~= got_before);
                    lemma_points_at_append(
                        before,
                        hyphen_offsets(g, got_before, m, i as int),
                        added,
                        shifted(off as int, kept_breaks(word.spec_bytes(), breaks@)),
                        self.glue@,
                        self.priority as int,
                    );
                    lemma_hyphen_offsets_prefix(g, got_before, got, m, i as int);
                    assert(eligible(g[i as int], m));
                    assert(hyphen_offsets(g, got, m, i + 1) == hyphen_offsets(g, got, m, i as int)
                        + shifted(off as int, kept_breaks(encode_utf8(g[i as int]), got[i as int])));
                    assert forall|q: int| 0 <= q < out@.len() implies lies_within(#[trigger] out@[q], text) by {
                        if q >= before.len() {
                            let k = kept_breaks(word.spec_bytes(), breaks@);
                            lemma_kept_inside(word.spec_bytes(), breaks@);
                            assert(out@[q] == added[q - before.len()]);
                            assert(k[q - before.len()] < wlen);
                        } else {
                            assert(out@[q] == before[q]);
                        }
                    }
                }
            } else {
                proof {
                    got = got.push(dictionary_hyphenation(self.corpus, g[i as int]));
                    lemma_hyphen_offsets_prefix(g, got_before, got, m, i as int);
                    assert(!eligible(g[i as int], m));
                    assert(hyphen_offsets(g, got, m, i + 1) =~= hyphen_offsets(g, got, m, i as int));
                }
            }
            off = off + wlen;
            i = i + 1;
        }
        proof {
            assert(got =~= Seq::new(g.len(), |q: int| dictionary_hyphenation(self.corpus, g[q])));
        }
        out
    }
}

proof fn lemma_kept_inside(word: Seq<u8>, breaks: Seq<usize>)
    ensures
        forall|i: int| 0 <= i < kept_breaks(word, breaks).len() ==> 0 < #[trigger] kept_breaks(word, breaks)[i] < word.len(),
    decreases breaks.len(),
{
    if breaks.len() > 0 {
        lemma_kept_inside(word, breaks.drop_last());
        let k = kept_breaks(word, breaks.drop_last());
        let r = kept_breaks(word, breaks);
        assert forall|i: int| 0 <= i < r.len() implies 0 < #[trigger] r[i] < word.len() by {
            if i < k.len() {
                assert(r[i] == k[i]);
            }
        }
    }
}

proof fn lemma_hyphen_offsets_prefix(
    segments: Seq<Seq<char>>,
    a: Seq<Seq<usize>>,
    b: Seq<Seq<usize>>,
    m: (usize, usize),
    i: int,
)
    requires
        0 <= i <= a.len(),
        i <= b.len(),
        forall|j: int| 0 <= j < i ==> #[trigger] a[j] == b[j],
    ensures
        hyphen_offsets(segments, a, m, i) == hyphen_offsets(segments, b, m, i),
    decreases i,
{
    if i > 0 {
        lemma_hyphen_offsets_prefix(segments, a, b, m, i - 1);
    }
}

} // verus!
