use vstd::prelude::*;
use vstd::string::*;
use vstd::utf8::*;

verus! {

broadcast use vstd::string::group_string_axioms, vstd::utf8::group_utf8_lib;

/// The concatenation of `parts`, in order.
pub open spec fn joined(parts: Seq<Seq<char>>) -> Seq<char>
    decreases parts.len(),
{
    if parts.len() == 0 {
        Seq::empty()
    } else {
        joined(parts.drop_last()) + parts.last()
    }
}

/// The bytes of `text` between two offsets, read back as characters.
pub open spec fn chars_between(bytes: Seq<u8>, from: int, to: int) -> Seq<char> {
    decode_utf8(bytes.subrange(from, to))
}

/// Encoding distributes over concatenation.
pub proof fn lemma_encode_concat(a: Seq<char>, b: Seq<char>)
    ensures
        encode_utf8(a + b) == encode_utf8(a) + encode_utf8(b),
    decreases a.len(),
{
    if a.len() == 0 {
        assert(a + b =~= b);
        assert(encode_utf8(a) =~= Seq::<u8>::empty());
        assert(encode_utf8(a) + encode_utf8(b) =~= encode_utf8(b));
    } else {
        assert((a + b).drop_first() =~= a.drop_first() + b);
        assert((a + b)[0] == a[0]);
        lemma_encode_concat(a.drop_first(), b);
        assert(encode_utf8(a + b) =~= encode_scalar(a[0] as u32) + encode_utf8(a.drop_first()) + encode_utf8(b));
    }
}

/// A character boundary of a valid encoding stays one in every prefix that
/// contains it.
pub proof fn lemma_boundary_in_prefix(bytes: Seq<u8>, to: int, at: int)
    requires
        valid_utf8(bytes),
        0 <= at <= to <= bytes.len(),
        is_char_boundary(bytes, to),
        is_char_boundary(bytes, at),
    ensures
        valid_utf8(bytes.subrange(0, to)),
        is_char_boundary(bytes.subrange(0, to), at),
{
    valid_utf8_split(bytes, to);
    let p = bytes.subrange(0, to);
    if at == to {
        is_char_boundary_start_end_of_seq(p);
        assert(p.len() == to);
    } else if at > 0 {
        is_char_boundary_iff_not_is_continuation_byte(bytes, at);
        is_char_boundary_iff_not_is_continuation_byte(p, at);
        assert(p[at] == bytes[at]);
    }
}

/// A range of a valid encoding between two character boundaries is valid
/// itself, and each boundary within it stays one.
pub proof fn lemma_boundary_in_range(bytes: Seq<u8>, a: int, c: int, x: int)
    requires
        valid_utf8(bytes),
        0 <= a <= x <= c <= bytes.len(),
        is_char_boundary(bytes, a),
        is_char_boundary(bytes, x),
        is_char_boundary(bytes, c),
    ensures
        valid_utf8(bytes.subrange(a, c)),
        is_char_boundary(bytes.subrange(a, c), x - a),
{
    lemma_boundary_in_prefix(bytes, c, a);
    let p = bytes.subrange(0, c);
    valid_utf8_split(p, a);
    let q = bytes.subrange(a, c);
    assert(p.subrange(a, p.len() as int) =~= q);
    if x == c {
        is_char_boundary_start_end_of_seq(q);
    } else if x > a {
        is_char_boundary_iff_not_is_continuation_byte(bytes, x);
        is_char_boundary_iff_not_is_continuation_byte(q, x - a);
        assert(q[x - a] == bytes[x]);
    }
}

/// Decoding splits at a character boundary between two others.
pub proof fn lemma_chars_between_split(bytes: Seq<u8>, a: int, b: int, c: int)
    requires
        valid_utf8(bytes),
        0 <= a <= b <= c <= bytes.len(),
        is_char_boundary(bytes, a),
        is_char_boundary(bytes, b),
        is_char_boundary(bytes, c),
    ensures
        chars_between(bytes, a, c) == chars_between(bytes, a, b) + chars_between(bytes, b, c),
{
    lemma_boundary_in_range(bytes, a, c, b);
    let q = bytes.subrange(a, c);
    decode_utf8_split(q, b - a);
    assert(q.subrange(0, b - a) =~= bytes.subrange(a, b));
    assert(q.subrange(b - a, q.len() as int) =~= bytes.subrange(b, c));
}

/// The part of `line` between two character boundaries.
pub fn slice<'a>(line: &'a str, from: usize, to: usize) -> (r: &'a str)
    requires
        from <= to <= line.spec_bytes().len(),
        is_char_boundary(line.spec_bytes(), from as int),
        is_char_boundary(line.spec_bytes(), to as int),
    ensures
        r@ == chars_between(line.spec_bytes(), from as int, to as int),
{
    let ghost b = line.spec_bytes();
    proof {
        encode_utf8_valid_utf8(line@);
        lemma_boundary_in_prefix(b, to as int, from as int);
    }
    let (head, _) = line.split_at(to);
    let (_, part) = head.split_at(from);
    proof {
        assert(part.spec_bytes() =~= b.subrange(from as int, to as int));
        encode_utf8_decode_utf8(part@);
    }
    part
}

} // verus!
