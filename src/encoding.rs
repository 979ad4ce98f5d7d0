//! Facts about the UTF-8 encoding of character sequences and their prefixes.
use vstd::prelude::*;
use vstd::utf8::{
    encode_scalar, encode_utf8, encode_utf8_first_scalar, encode_utf8_valid_utf8, is_char_boundary,
    length_of_first_scalar, pop_first_scalar, char_is_scalar,
};
use crate::classify::utf8_width;
use crate::model::byte_offset;

verus! {

/// Encoding distributes over concatenation.
pub proof fn lemma_encode_concat(x: Seq<char>, y: Seq<char>)
    ensures
        encode_utf8(x + y) == encode_utf8(x) + encode_utf8(y),
    decreases x.len(),
{
    if x.len() == 0 {
        assert(x + y =~= y);
        assert(encode_utf8(x) + encode_utf8(y) =~= encode_utf8(y));
    } else {
        assert((x + y).drop_first() =~= x.drop_first() + y);
        lemma_encode_concat(x.drop_first(), y);
        assert(encode_utf8(x + y) =~= encode_utf8(x) + encode_utf8(y));
    }
}

/// A single character encodes as its scalar value.
pub proof fn lemma_encode_single(c: char)
    ensures
        encode_utf8(seq![c]) == encode_scalar(c as u32),
{
    let e = Seq::<char>::empty();
    assert(seq![c].drop_first() =~= e);
    assert(encode_utf8(e) =~= Seq::<u8>::empty());
    assert(encode_utf8(seq![c]) =~= encode_scalar(c as u32) + encode_utf8(e));
    assert(encode_scalar(c as u32) + Seq::<u8>::empty() =~= encode_scalar(c as u32));
}

/// Every character takes between one and four bytes.
pub proof fn lemma_width_bounds(c: char)
    ensures
        1 <= utf8_width(c) <= 4,
{
    char_is_scalar(c);
}

/// Moving one character forward advances the byte offset by its width.
pub proof fn lemma_byte_offset_step(s: Seq<char>, i: int)
    requires
        0 <= i < s.len(),
    ensures
        byte_offset(s, i + 1) == byte_offset(s, i) + utf8_width(s[i]),
{
    assert(s.subrange(0, i + 1) =~= s.subrange(0, i) + seq![s[i]]);
    lemma_encode_concat(s.subrange(0, i), seq![s[i]]);
    lemma_encode_single(s[i]);
}

/// Byte offsets grow strictly with the character index.
pub proof fn lemma_byte_offset_monotone(s: Seq<char>, a: int, b: int)
    requires
        0 <= a <= b <= s.len(),
    ensures
        byte_offset(s, a) <= byte_offset(s, b),
        a < b ==> byte_offset(s, a) + (b - a) <= byte_offset(s, b),
    decreases b - a,
{
    if a < b {
        lemma_byte_offset_monotone(s, a, b - 1);
        lemma_byte_offset_step(s, b - 1);
        lemma_width_bounds(s[b - 1]);
    }
}

/// The offset of the end of `s` is the length of its encoding.
pub proof fn lemma_byte_offset_end(s: Seq<char>)
    ensures
        byte_offset(s, s.len() as int) == encode_utf8(s).len(),
{
    assert(s.subrange(0, s.len() as int) =~= s);
}

/// The bytes between two offsets encode exactly the characters between them.
pub proof fn lemma_encode_slice(s: Seq<char>, a: int, b: int)
    requires
        0 <= a <= b <= s.len(),
    ensures
        encode_utf8(s).subrange(byte_offset(s, a), byte_offset(s, b)) == encode_utf8(
            s.subrange(a, b),
        ),
{
    let p = s.subrange(0, a);
    let m = s.subrange(a, b);
    let q = s.subrange(b, s.len() as int);
    assert(s =~= p + m + q);
    assert(s.subrange(0, b) =~= p + m);
    lemma_encode_concat(p + m, q);
    lemma_encode_concat(p, m);
    assert(encode_utf8(s).subrange(byte_offset(s, a), byte_offset(s, b)) =~= encode_utf8(m));
}

/// The offset of every character index falls on a character boundary.
pub proof fn lemma_char_boundary(s: Seq<char>, a: int)
    requires
        0 <= a <= s.len(),
    ensures
        is_char_boundary(encode_utf8(s), byte_offset(s, a)),
    decreases a,
{
    let bytes = encode_utf8(s);
    encode_utf8_valid_utf8(s);
    if a == 0 {
        assert(s.subrange(0, 0) =~= Seq::<char>::empty());
    } else {
        let rest = s.drop_first();
        encode_utf8_first_scalar(s);
        assert(pop_first_scalar(bytes) =~= encode_utf8(rest));
        assert(s.subrange(0, a) =~= seq![s[0]] + rest.subrange(0, a - 1));
        lemma_encode_concat(seq![s[0]], rest.subrange(0, a - 1));
        lemma_encode_single(s[0]);
        assert(byte_offset(s, a) - length_of_first_scalar(bytes) == byte_offset(rest, a - 1));
        lemma_byte_offset_monotone(s, a, s.len() as int);
        lemma_byte_offset_end(s);
        lemma_char_boundary(rest, a - 1);
    }
}

} // verus!
