use std::collections::HashMap;
use unicode_segmentation::UnicodeSegmentation;
use vstd::prelude::*;
use vstd::string::*;
use vstd::utf8::*;

use crate::offset::step_down;
use crate::ruler::TextWidth;
use crate::text::{joined, lemma_encode_concat};

verus! {

broadcast use vstd::std_specs::hash::group_hash_axioms, vstd::string::group_string_axioms;

/// The extended grapheme clusters of a text, as `unicode-segmentation`
/// finds them.
pub uninterp spec fn grapheme_clusters(text: Seq<char>) -> Seq<Seq<char>>;

/// The characters of each string slice.
pub open spec fn views_of(parts: Seq<&str>) -> Seq<Seq<char>> {
    parts.map_values(|g: &str| g@)
}

/// Relies on `unicode_segmentation::UnicodeSegmentation::graphemes` (extended
/// clusters): the clusters of a text in order, each nonempty, which together
/// spell the text.
#[verifier::external_body]
fn graphemes(text: &str) -> (r: Vec<&str>)
    ensures
        views_of(r@) == grapheme_clusters(text@),
        forall|i: int| 0 <= i < r@.len() ==> (#[trigger] r@[i])@.len() > 0,
        joined(views_of(r@)) == text@,
{
    text.graphemes(true).collect()
}

/// Byte offset at which cluster `i` begins.
pub open spec fn cluster_start(clusters: Seq<Seq<char>>, i: int) -> int {
    encode_utf8(joined(clusters.take(i))).len() as int
}

/// Total width of the first `i` clusters.
pub open spec fn width_upto<R: TextWidth>(ruler: &R, clusters: Seq<Seq<char>>, i: int) -> nat
    decreases i,
{
    if i <= 0 {
        0
    } else {
        width_upto(ruler, clusters, i - 1) + ruler.spec_measure(clusters[i - 1])
    }
}

/// Byte-to-width entries for the first `i` cluster starts.
pub open spec fn b2w_upto<R: TextWidth>(ruler: &R, clusters: Seq<Seq<char>>, i: int) -> Map<
    usize,
    usize,
>
    decreases i,
{
    if i <= 0 {
        Map::empty()
    } else {
        b2w_upto(ruler, clusters, i - 1).insert(
            cluster_start(clusters, i - 1) as usize,
            width_upto(ruler, clusters, i - 1) as usize,
        )
    }
}

/// Width-to-byte entries for the first `i` cluster starts; of several
/// starts at one width the last one stays.
pub open spec fn w2b_upto<R: TextWidth>(ruler: &R, clusters: Seq<Seq<char>>, i: int) -> Map<
    usize,
    usize,
>
    decreases i,
{
    if i <= 0 {
        Map::empty()
    } else {
        w2b_upto(ruler, clusters, i - 1).insert(
            width_upto(ruler, clusters, i - 1) as usize,
            cluster_start(clusters, i - 1) as usize,
        )
    }
}

/// Width of a whole text: the sum of its clusters' widths.
pub open spec fn text_width<R: TextWidth>(ruler: &R, text: &str) -> nat {
    width_upto(ruler, grapheme_clusters(text@), grapheme_clusters(text@).len() as int)
}

/// The byte-to-width map of a text: each cluster start, and the end.
pub open spec fn byte_to_width<R: TextWidth>(ruler: &R, text: &str) -> Map<usize, usize> {
    let g = grapheme_clusters(text@);
    b2w_upto(ruler, g, g.len() as int).insert(
        text.spec_bytes().len() as usize,
        text_width(ruler, text) as usize,
    )
}

/// The width-to-byte map of a text: each cluster start, and the end.
pub open spec fn width_to_byte<R: TextWidth>(ruler: &R, text: &str) -> Map<usize, usize> {
    let g = grapheme_clusters(text@);
    w2b_upto(ruler, g, g.len() as int).insert(
        text_width(ruler, text) as usize,
        text.spec_bytes().len() as usize,
    )
}

pub proof fn lemma_width_upto_monotone<R: TextWidth>(
    ruler: &R,
    clusters: Seq<Seq<char>>,
    i: int,
    j: int,
)
    requires
        i <= j,
    ensures
        width_upto(ruler, clusters, i) <= width_upto(ruler, clusters, j),
    decreases j - i,
{
    if i < j {
        lemma_width_upto_monotone(ruler, clusters, i, j - 1);
    }
}

pub proof fn lemma_cluster_start_step(clusters: Seq<Seq<char>>, i: int)
    requires
        0 <= i < clusters.len(),
    ensures
        cluster_start(clusters, i + 1) == cluster_start(clusters, i) + encode_utf8(
            clusters[i],
        ).len(),
{
    let t = clusters.take(i + 1);
    assert(t.drop_last() =~= clusters.take(i));
    assert(t.last() == clusters[i]);
    lemma_encode_concat(joined(clusters.take(i)), clusters[i]);
}

pub proof fn lemma_cluster_start_monotone(clusters: Seq<Seq<char>>, i: int, j: int)
    requires
        0 <= i <= j <= clusters.len(),
    ensures
        cluster_start(clusters, i) <= cluster_start(clusters, j),
    decreases j - i,
{
    if i < j {
        lemma_cluster_start_monotone(clusters, i, j - 1);
        lemma_cluster_start_step(clusters, j - 1);
    }
}

proof fn lemma_encode_nonempty(t: Seq<char>)
    requires
        t.len() > 0,
    ensures
        encode_utf8(t).len() > 0,
{
    assert(encode_utf8(t) == encode_scalar(t[0] as u32) + encode_utf8(t.drop_first()));
}

proof fn lemma_cluster_start_increasing(clusters: Seq<Seq<char>>, i: int, j: int)
    requires
        0 <= i < j <= clusters.len(),
        forall|m: int| 0 <= m < clusters.len() ==> (#[trigger] clusters[m]).len() > 0,
    ensures
        cluster_start(clusters, i) < cluster_start(clusters, j),
    decreases j - i,
{
    lemma_cluster_start_step(clusters, j - 1);
    lemma_encode_nonempty(clusters[j - 1]);
    if i < j - 1 {
        lemma_cluster_start_increasing(clusters, i, j - 1);
    }
}

proof fn lemma_b2w_keeps<R: TextWidth>(ruler: &R, clusters: Seq<Seq<char>>, k: int, i: int, bound: int)
    requires
        0 <= k < i <= clusters.len(),
        forall|m: int| 0 <= m < clusters.len() ==> (#[trigger] clusters[m]).len() > 0,
        cluster_start(clusters, clusters.len() as int) <= bound <= usize::MAX,
        width_upto(ruler, clusters, clusters.len() as int) <= usize::MAX,
    ensures
        b2w_upto(ruler, clusters, i).contains_key(cluster_start(clusters, k) as usize),
        b2w_upto(ruler, clusters, i)[cluster_start(clusters, k) as usize] == width_upto(
            ruler,
            clusters,
            k,
        ) as usize,
    decreases i,
{
    if i > k + 1 {
        lemma_b2w_keeps(ruler, clusters, k, i - 1, bound);
        lemma_cluster_start_increasing(clusters, k, i - 1);
        lemma_cluster_start_monotone(clusters, i - 1, clusters.len() as int);
    }
}

proof fn lemma_w2b_keeps<R: TextWidth>(ruler: &R, clusters: Seq<Seq<char>>, k: int, i: int)
    requires
        0 <= k < i <= clusters.len(),
        ruler.spec_measure(clusters[k]) > 0,
        width_upto(ruler, clusters, clusters.len() as int) <= usize::MAX,
        cluster_start(clusters, clusters.len() as int) <= usize::MAX,
    ensures
        w2b_upto(ruler, clusters, i).contains_key(width_upto(ruler, clusters, k) as usize),
        w2b_upto(ruler, clusters, i)[width_upto(ruler, clusters, k) as usize] == cluster_start(
            clusters,
            k,
        ) as usize,
    decreases i,
{
    if i > k + 1 {
        lemma_w2b_keeps(ruler, clusters, k, i - 1);
        lemma_width_upto_monotone(ruler, clusters, k + 1, i - 1);
        lemma_width_upto_monotone(ruler, clusters, i - 1, clusters.len() as int);
    }
}

/// Coordinate consistency: a cluster boundary mapped to its width and back
/// (by map lookup, or by `ByteOffset::to_width` then `WidthOffset::to_bytes`)
/// is the boundary again; `coordinates` ensures the facts on the clusters
/// that this asks for. A boundary followed by a cluster of no width is
/// left out: the later boundary at the same width takes its place.
pub proof fn lemma_coordinates_round_trip<R: TextWidth>(ruler: &R, text: &str, k: int)
    requires
        text.spec_bytes().len() <= usize::MAX,
        text_width(ruler, text) <= usize::MAX,
        joined(grapheme_clusters(text@)) == text@,
        forall|m: int|
            0 <= m < grapheme_clusters(text@).len() ==> (#[trigger] grapheme_clusters(text@)[m]).len()
                > 0,
        0 <= k <= grapheme_clusters(text@).len(),
        k < grapheme_clusters(text@).len() ==> ruler.spec_measure(grapheme_clusters(text@)[k]) > 0,
    ensures
        ({
            let b = cluster_start(grapheme_clusters(text@), k) as usize;
            &&& byte_to_width(ruler, text).contains_key(b)
            &&& width_to_byte(ruler, text).contains_key(byte_to_width(ruler, text)[b])
            &&& width_to_byte(ruler, text)[byte_to_width(ruler, text)[b]] == b
            &&& step_down(width_to_byte(ruler, text), step_down(byte_to_width(ruler, text), b)) == b
        }),
{
    let g = grapheme_clusters(text@);
    let n = g.len() as int;
    assert(g.take(n) =~= g);
    assert(cluster_start(g, n) == text.spec_bytes().len());
    if k < n {
        lemma_b2w_keeps(ruler, g, k, n, text.spec_bytes().len() as int);
        lemma_w2b_keeps(ruler, g, k, n);
        lemma_cluster_start_increasing(g, k, n);
        lemma_width_upto_monotone(ruler, g, k + 1, n);
    }
}

/// Scans `line` cluster by cluster and builds its two coordinate maps and
/// its total width; `None` when that width does not fit in `usize`.
pub fn coordinates<R: TextWidth>(line: &str, ruler: &R) -> (r: Option<
    (HashMap<usize, usize>, HashMap<usize, usize>, usize),
>)
    ensures
        joined(grapheme_clusters(line@)) == line@,
        forall|m: int|
            0 <= m < grapheme_clusters(line@).len() ==> (#[trigger] grapheme_clusters(line@)[m]).len()
                > 0,
        match r {
            None => text_width(ruler, line) > usize::MAX,
            Some((b2w, w2b, total)) => {
                &&& b2w@ == byte_to_width(ruler, line)
                &&& w2b@ == width_to_byte(ruler, line)
                &&& total == text_width(ruler, line)
            },
        },
{
    let clusters = graphemes(line);
    let line_len = line.as_bytes().len();
    let ghost g = grapheme_clusters(line@);
    let mut b2w: HashMap<usize, usize> = HashMap::new();
    let mut w2b: HashMap<usize, usize> = HashMap::new();
    let mut width: usize = 0;
    let mut bytes: usize = 0;
    let mut i: usize = 0;
    proof {
        assert(g.take(g.len() as int) =~= g);
        assert(clusters@.len() == g.len());
        assert forall|m: int| 0 <= m < g.len() implies (#[trigger] g[m]).len() > 0 by {
            assert(g[m] == clusters@[m]@);
        }
    }
    while i < clusters.len()
        invariant
            g == grapheme_clusters(line@),
            views_of(clusters@) == g,
            joined(g) == line@,
            forall|m: int| 0 <= m < g.len() ==> (#[trigger] g[m]).len() > 0,
            0 <= i <= clusters.len(),
            bytes == cluster_start(g, i as int),
            line_len == line.spec_bytes().len(),
            width == width_upto(ruler, g, i as int),
            b2w@ == b2w_upto(ruler, g, i as int),
            w2b@ == w2b_upto(ruler, g, i as int),
        decreases clusters.len() - i,
    {
        let cluster = clusters[i];
        assert(cluster@ == g[i as int]);
        b2w.insert(bytes, width);
        w2b.insert(width, bytes);
        let m = ruler.measure(cluster);
        if m > usize::MAX - width {
            proof {
                lemma_width_upto_monotone(ruler, g, i + 1, g.len() as int);
            }
            return None;
        }
        proof {
            lemma_cluster_start_step(g, i as int);
            lemma_cluster_start_monotone(g, i + 1, g.len() as int);
            assert(g.take(g.len() as int) =~= g);
            assert(cluster_start(g, g.len() as int) == line.spec_bytes().len());
            assert(cluster.spec_bytes().len() == encode_utf8(g[i as int]).len());
        }
        width = width + m;
        bytes = bytes + cluster.len();
        i = i + 1;
    }
    b2w.insert(line_len, width);
    w2b.insert(width, line_len);
    Some((b2w, w2b, width))
}

} // verus!
