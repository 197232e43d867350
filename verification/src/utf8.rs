//! How a text and its UTF-8 bytes correspond.
//!
//! The executable code scans bytes, the contracts speak of characters. The
//! lemmas here carry a fact about the one over to the other: a cut of the
//! bytes at the edge of a character is a cut of the characters, and a run of
//! bytes that spells a text stands where that text stands.

use vstd::prelude::*;
use vstd::utf8::*;
use crate::infix::{occurs_at, occurs_in};

verus! {

/// The bytes of two texts joined are the bytes of the first, then those of the second.
pub proof fn lemma_encode_concat(a: Seq<char>, b: Seq<char>)
    ensures
        encode_utf8(a + b) == encode_utf8(a) + encode_utf8(b),
    decreases a.len(),
{
    if a.len() == 0 {
        assert(a + b =~= b);
        assert(encode_utf8(a) + encode_utf8(b) =~= encode_utf8(b));
    } else {
        assert((a + b).drop_first() =~= a.drop_first() + b);
        lemma_encode_concat(a.drop_first(), b);
        assert(encode_utf8(a + b) =~= encode_utf8(a) + encode_utf8(b));
    }
}

/// Two texts with the same bytes are the same text.
pub proof fn lemma_encode_injective(a: Seq<char>, b: Seq<char>)
    requires
        encode_utf8(a) == encode_utf8(b),
    ensures
        a == b,
{
    encode_utf8_decode_utf8(a);
    encode_utf8_decode_utf8(b);
}

/// Two texts whose bytes are the two sides of a cut through the bytes of
/// `whole` make up `whole`.
pub proof fn lemma_cut(whole: Seq<char>, head: Seq<char>, tail: Seq<char>, mid: int)
    requires
        0 <= mid <= encode_utf8(whole).len(),
        encode_utf8(head) == encode_utf8(whole).subrange(0, mid),
        encode_utf8(tail) == encode_utf8(whole).subrange(mid, encode_utf8(whole).len() as int),
    ensures
        whole == head + tail,
{
    lemma_encode_concat(head, tail);
    assert(encode_utf8(head) + encode_utf8(tail) =~= encode_utf8(whole));
    lemma_encode_injective(whole, head + tail);
}

/// A single character below U+0080 is one byte, its own code.
pub proof fn lemma_encode_ascii(c: char)
    requires
        (c as u32) < 0x80,
    ensures
        encode_utf8(seq![c]) == seq![c as u8],
{
    let v = c as u32;
    assert(v < 0x80 ==> (v & 0x7F) as u8 == v as u8) by (bit_vector);
    assert(encode_scalar(v) == seq![c as u8]);
    assert(seq![c].drop_first() =~= Seq::<char>::empty());
    assert(encode_utf8(seq![c].drop_first()) =~= Seq::<u8>::empty());
    assert(encode_utf8(seq![c]) =~= seq![c as u8]);
}

/// A character below U+0080 at index `i` of a text is the byte at the index
/// where the bytes of the text before it end.
pub proof fn lemma_ascii_char_has_byte(text: Seq<char>, i: int)
    requires
        0 <= i < text.len(),
        (text[i] as u32) < 0x80,
    ensures
        encode_utf8(text.take(i)).len() < encode_utf8(text).len(),
        encode_utf8(text)[encode_utf8(text.take(i)).len() as int] == text[i] as u8,
        encode_utf8(text) == encode_utf8(text.take(i)) + seq![text[i] as u8] + encode_utf8(
            text.skip(i + 1),
        ),
{
    let before = text.take(i);
    let after = text.skip(i + 1);
    assert(text =~= before + seq![text[i]] + after);
    lemma_encode_ascii(text[i]);
    lemma_encode_concat(before, seq![text[i]]);
    lemma_encode_concat(before + seq![text[i]], after);
}

/// Where a well-formed byte string begins with a well-formed one, the
/// shorter one ends at the edge of a character of the longer.
pub proof fn lemma_prefix_ends_at_boundary(bytes: Seq<u8>, end: int)
    requires
        valid_utf8(bytes),
        0 <= end <= bytes.len(),
        valid_utf8(bytes.subrange(0, end)),
    ensures
        is_char_boundary(bytes, end),
    decreases end,
{
    if end > 0 {
        let head = bytes.subrange(0, end);
        let width = length_of_first_scalar(bytes);
        assert(head[0] == bytes[0]);
        assert(length_of_first_scalar(head) == width);
        assert(width <= end);
        assert(pop_first_scalar(head) =~= pop_first_scalar(bytes).subrange(0, end - width));
        lemma_prefix_ends_at_boundary(pop_first_scalar(bytes), end - width);
    }
}

/// A text that stands in another stands in it byte for byte.
pub proof fn lemma_occurs_in_bytes(text: Seq<char>, pat: Seq<char>)
    requires
        occurs_in(text, pat),
    ensures
        occurs_in(encode_utf8(text), encode_utf8(pat)),
{
    let at = choose|at: int| occurs_at(text, pat, at);
    let before = text.subrange(0, at);
    let after = text.subrange(at + pat.len(), text.len() as int);
    assert(text =~= before + pat + after);
    lemma_encode_concat(before, pat);
    lemma_encode_concat(before + pat, after);
    let found = encode_utf8(before).len() as int;
    assert(encode_utf8(text).subrange(found, found + encode_utf8(pat).len()) =~= encode_utf8(pat));
    assert(occurs_at(encode_utf8(text), encode_utf8(pat), found));
}

/// Where the bytes of one text stand among the bytes of another, the text
/// itself stands in the other: such a run begins and ends at the edge of a
/// character.
pub proof fn lemma_occurs_in_chars(text: Seq<char>, pat: Seq<char>)
    requires
        occurs_in(encode_utf8(text), encode_utf8(pat)),
    ensures
        occurs_in(text, pat),
{
    let bytes = encode_utf8(text);
    let run = encode_utf8(pat);
    let at = choose|at: int| occurs_at(bytes, run, at);
    encode_utf8_valid_utf8(text);
    encode_utf8_valid_utf8(pat);
    if pat.len() == 0 {
        assert(text.subrange(0, 0) =~= pat);
        assert(occurs_at(text, pat, 0));
    } else {
        encode_utf8_first_scalar(pat);
        assert(bytes.subrange(at, at + run.len())[0] == bytes[at]);
        assert(!is_continuation_byte(bytes[at]));
        is_char_boundary_iff_not_is_continuation_byte(bytes, at);
        valid_utf8_split(bytes, at);
        let tail = bytes.subrange(at, bytes.len() as int);
        assert(tail.subrange(0, run.len() as int) =~= run);
        lemma_prefix_ends_at_boundary(tail, run.len() as int);
        valid_utf8_split(tail, run.len() as int);
        let before = decode_utf8(bytes.subrange(0, at));
        let after = decode_utf8(tail.subrange(run.len() as int, tail.len() as int));
        decode_utf8_encode_utf8(bytes.subrange(0, at));
        decode_utf8_encode_utf8(tail.subrange(run.len() as int, tail.len() as int));
        lemma_encode_concat(before, pat);
        lemma_encode_concat(before + pat, after);
        assert(encode_utf8(before + pat + after) =~= bytes);
        lemma_encode_injective(text, before + pat + after);
        let found = before.len() as int;
        assert(text.subrange(found, found + pat.len()) =~= pat);
        assert(occurs_at(text, pat, found));
    }
}

} // verus!
