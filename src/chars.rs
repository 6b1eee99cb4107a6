use vstd::prelude::*;
use vstd::string::*;
use vstd::std_specs::iter::IteratorSpec;
use vstd::utf8::*;

use crate::text::lemma_encode_concat;

verus! {

broadcast use vstd::string::group_string_axioms, vstd::utf8::group_utf8_lib;

/// Byte offset of character `k` of `t` in its UTF-8 encoding.
pub open spec fn char_offset(t: Seq<char>, k: int) -> int {
    encode_utf8(t.take(k)).len() as int
}

/// The index of the character that begins at byte `b` (`t.len()` for the
/// end), if `b` is a character boundary.
pub open spec fn char_index_at(t: Seq<char>, b: int) -> Option<int> {
    if exists|k: int| 0 <= k <= t.len() && char_offset(t, k) == b {
        Some(choose|k: int| 0 <= k <= t.len() && char_offset(t, k) == b)
    } else {
        None
    }
}

/// Number of bytes in the UTF-8 encoding of `c`.
pub fn utf8_len(c: char) -> (r: usize)
    ensures
        r == encode_utf8(seq![c]).len(),
        1 <= r <= 4,
{
    proof {
        let e = seq![c];
        assert(e.drop_first() =~= Seq::<char>::empty());
        assert(encode_utf8(e.drop_first()) =~= Seq::<u8>::empty());
        assert(e[0] == c);
        assert(encode_utf8(e) =~= encode_scalar(c as u32));
    }
    let v = c as u32;
    if v <= 0x7F {
        1
    } else if v <= 0x7FF {
        2
    } else if v <= 0xFFFF {
        3
    } else {
        4
    }
}

pub proof fn lemma_char_offset_step(t: Seq<char>, k: int)
    requires
        0 <= k < t.len(),
    ensures
        char_offset(t, k + 1) == char_offset(t, k) + encode_utf8(seq![t[k]]).len(),
        encode_utf8(seq![t[k]]).len() >= 1,
{
    assert(t.take(k + 1) =~= t.take(k) + seq![t[k]]);
    lemma_encode_concat(t.take(k), seq![t[k]]);
    assert(seq![t[k]].drop_first() =~= Seq::<char>::empty());
}

/// Character offsets strictly increase with the index.
pub proof fn lemma_char_offset_increasing(t: Seq<char>, i: int, j: int)
    requires
        0 <= i < j <= t.len(),
    ensures
        char_offset(t, i) < char_offset(t, j),
    decreases j - i,
{
    lemma_char_offset_step(t, j - 1);
    if i < j - 1 {
        lemma_char_offset_increasing(t, i, j - 1);
    }
}

pub proof fn lemma_char_index_at(t: Seq<char>, k: int)
    requires
        0 <= k <= t.len(),
    ensures
        char_index_at(t, char_offset(t, k)) == Some(k),
{
    let b = char_offset(t, k);
    assert(0 <= k <= t.len() && char_offset(t, k) == b);
    let k2 = choose|k2: int| 0 <= k2 <= t.len() && char_offset(t, k2) == b;
    if k2 < k {
        lemma_char_offset_increasing(t, k2, k);
    } else if k < k2 {
        lemma_char_offset_increasing(t, k, k2);
    }
}

pub proof fn lemma_no_char_index(t: Seq<char>, k: int, b: int)
    requires
        0 <= k < t.len(),
        char_offset(t, k) < b < char_offset(t, k + 1),
    ensures
        char_index_at(t, b) is None,
{
    if exists|k2: int| 0 <= k2 <= t.len() && char_offset(t, k2) == b {
        let k2 = choose|k2: int| 0 <= k2 <= t.len() && char_offset(t, k2) == b;
        if k2 <= k {
            if k2 < k {
                lemma_char_offset_increasing(t, k2, k);
            }
        } else if k2 > k + 1 {
            lemma_char_offset_increasing(t, k + 1, k2);
        }
    }
}

/// The bytes between two character offsets encode the characters between
/// them.
pub proof fn lemma_bytes_between(t: Seq<char>, i: int, j: int)
    requires
        0 <= i <= j <= t.len(),
    ensures
        encode_utf8(t).subrange(char_offset(t, i), char_offset(t, j)) == encode_utf8(
            t.subrange(i, j),
        ),
        decode_utf8(encode_utf8(t).subrange(char_offset(t, i), char_offset(t, j))) == t.subrange(
            i,
            j,
        ),
{
    assert(t =~= t.take(i) + t.subrange(i, j) + t.skip(j));
    assert(t.take(j) =~= t.take(i) + t.subrange(i, j));
    lemma_encode_concat(t.take(i), t.subrange(i, j));
    lemma_encode_concat(t.take(i) + t.subrange(i, j), t.skip(j));
    assert(encode_utf8(t).subrange(char_offset(t, i), char_offset(t, j)) =~= encode_utf8(
        t.subrange(i, j),
    ));
}

/// Offsets grow with the index, and the last one is the length of the
/// encoding.
pub proof fn lemma_char_offset_bounds(t: Seq<char>, k: int)
    requires
        0 <= k <= t.len(),
    ensures
        k <= char_offset(t, k) <= encode_utf8(t).len(),
    decreases k,
{
    assert(t.take(t.len() as int) =~= t);
    if k > 0 {
        lemma_char_offset_bounds(t, k - 1);
        lemma_char_offset_step(t, k - 1);
    }
    if k < t.len() {
        lemma_char_offset_increasing(t, k, t.len() as int);
    }
}

/// Character offsets are character boundaries of the encoding.
pub proof fn lemma_char_offset_is_boundary(t: Seq<char>, k: int)
    requires
        0 <= k <= t.len(),
    ensures
        is_char_boundary(encode_utf8(t), char_offset(t, k)),
    decreases k,
{
    encode_utf8_valid_utf8(t);
    if k > 0 {
        let d = t.drop_first();
        encode_utf8_first_scalar(t);
        encode_utf8_valid_utf8(d);
        let e = seq![t[0]];
        assert(e.drop_first() =~= Seq::<char>::empty());
        assert(encode_utf8(e.drop_first()) =~= Seq::<u8>::empty());
        assert(e[0] == t[0]);
        assert(encode_utf8(e) =~= encode_scalar(t[0] as u32));
        assert(pop_first_scalar(encode_utf8(t)) =~= encode_utf8(d));
        assert(t.take(k) =~= e + d.take(k - 1));
        lemma_encode_concat(e, d.take(k - 1));
        lemma_char_offset_bounds(t, k);
        lemma_char_offset_is_boundary(d, k - 1);
    }
}

/// No character begins beyond the end of the encoding.
pub proof fn lemma_no_index_past_end(t: Seq<char>, b: int)
    requires
        b > encode_utf8(t).len(),
    ensures
        char_index_at(t, b) is None,
{
    if exists|k: int| 0 <= k <= t.len() && char_offset(t, k) == b {
        let k = choose|k: int| 0 <= k <= t.len() && char_offset(t, k) == b;
        lemma_char_offset_bounds(t, k);
    }
}

/// The characters of `text` and, for each byte offset up to and including
/// the end, the index of the character that begins there.
pub fn char_table(text: &str) -> (r: (Vec<char>, Vec<Option<usize>>))
    ensures
        r.0@ == text@,
        r.1@.len() == text.spec_bytes().len() + 1,
        forall|b: int|
            0 <= b < r.1@.len() ==> match #[trigger] r.1@[b] {
                Some(k) => char_index_at(text@, b) == Some(k as int),
                None => char_index_at(text@, b) is None,
            },
{
    let ghost t = text@;
    let len = text.as_bytes().len();
    let mut chars: Vec<char> = Vec::new();
    let mut index: Vec<Option<usize>> = Vec::new();
    let mut it = text.chars();
    let mut k: usize = 0;
    proof {
        assert(t.take(t.len() as int) =~= t);
        assert(t.take(0) =~= Seq::<char>::empty());
    }
    loop
        invariant
            t == text@,
            len == text.spec_bytes().len(),
            len == char_offset(t, t.len() as int),
            0 <= k <= t.len(),
            k <= char_offset(t, k as int),
            it.remaining() == t.skip(k as int),
            chars@ == t.take(k as int),
            index@.len() == char_offset(t, k as int),
            forall|b: int|
                0 <= b < index@.len() ==> match #[trigger] index@[b] {
                    Some(i) => char_index_at(t, b) == Some(i as int),
                    None => char_index_at(t, b) is None,
                },
        ensures
            k == t.len(),
            chars@ == t.take(k as int),
            index@.len() == char_offset(t, k as int),
            forall|b: int|
                0 <= b < index@.len() ==> match #[trigger] index@[b] {
                    Some(i) => char_index_at(t, b) == Some(i as int),
                    None => char_index_at(t, b) is None,
                },
        decreases t.len() - k,
    {
        match it.next() {
            Some(c) => {
                proof {
                    assert(c == t[k as int]);
                    lemma_char_offset_step(t, k as int);
                    if k + 1 < t.len() {
                        lemma_char_offset_increasing(t, k + 1, t.len() as int);
                    }
                    lemma_char_index_at(t, k as int);
                }
                let n = utf8_len(c);
                let ghost here = index@.len();
                index.push(Some(k));
                let mut m: usize = 1;
                while m < n
                    invariant
                        1 <= m <= n,
                        n == encode_utf8(seq![t[k as int]]).len(),
                        k < t.len(),
                        here == char_offset(t, k as int),
                        index@.len() == here + m,
                        forall|b: int|
                            0 <= b < index@.len() ==> match #[trigger] index@[b] {
                                Some(i) => char_index_at(t, b) == Some(i as int),
                                None => char_index_at(t, b) is None,
                            },
                    decreases n - m,
                {
                    proof {
                        lemma_char_offset_step(t, k as int);
                        lemma_no_char_index(t, k as int, index@.len() as int);
                    }
                    index.push(None);
                    m = m + 1;
                }
                chars.push(c);
                proof {
                    assert(t.take(k + 1) =~= t.take(k as int).push(c));
                    assert(t.skip(k + 1) =~= t.skip(k as int).drop_first());
                }
                k = k + 1;
            },
            None => {
                assert(t.skip(k as int).len() == 0);
                break;
            },
        }
    }
    proof {
        assert(chars@ =~= t);
        lemma_char_index_at(t, t.len() as int);
    }
    index.push(Some(k));
    (chars, index)
}

} // verus!
