//! The check byte of a directory.

use vstd::prelude::*;

use super::util::{le_u32, u32_at};

verus! {

/// A word turned to the right by thirteen bits.
pub open spec fn rotated(a: u32) -> u32 {
    (a >> 13u32) | (a << 19u32)
}

/// The accumulation of whole words, the first of which comes first.
pub open spec fn accumulate_words(a: u32, s: Seq<u8>) -> u32
    decreases s.len(),
{
    if s.len() < 4 {
        a
    } else {
        accumulate_words(rotated(a) ^ le_u32(s, 0), s.skip(4))
    }
}

/// The accumulation of single bytes.
pub open spec fn accumulate_bytes(a: u32, s: Seq<u8>) -> u32
    decreases s.len(),
{
    if s.len() == 0 {
        a
    } else {
        accumulate_bytes(rotated(a) ^ (s[0] as u32), s.skip(1))
    }
}

/// The four bytes of a word, combined.
pub open spec fn folded(a: u32) -> u8 {
    (((a % 0x100) as u32) ^ ((a / 0x100 % 0x100) as u32) ^ ((a / 0x1_0000 % 0x100) as u32) ^ ((a
        / 0x100_0000) as u32)) as u8
}

/// The check byte of a directory: its beginning as far as it is in use is taken by
/// words and then by bytes; of its tail, without the first byte and the last word,
/// the bytes that do not fill a word come first.
pub open spec fn check_byte(used: Seq<u8>, tail: Seq<u8>) -> u8 {
    let whole = 4 * (used.len() as int / 4);
    let a = accumulate_bytes(accumulate_words(0, used.take(whole)), used.skip(whole));
    let rest = tail.subrange(1, tail.len() - 4);
    let odd = rest.len() as int % 4;
    folded(accumulate_words(accumulate_bytes(a, rest.take(odd)), rest.skip(odd)))
}

/// Turns a word to the right by thirteen bits.
fn rotate(a: u32) -> (r: u32)
    ensures
        r == rotated(a),
{
    (a >> 13u32) | (a << 19u32)
}

/// Accumulates the words between two places.
pub(crate) fn add_words(a: u32, data: &[u8], from: usize, to: usize) -> (r: u32)
    requires
        from <= to <= data@.len(),
        (to - from) % 4 == 0,
    ensures
        r == accumulate_words(a, data@.subrange(from as int, to as int)),
{
    let mut sum: u32 = a;
    let mut i: usize = from;
    while i < to
        invariant
            from <= i <= to <= data@.len(),
            (to - i) % 4 == 0,
            accumulate_words(sum, data@.subrange(i as int, to as int)) == accumulate_words(
                a,
                data@.subrange(from as int, to as int),
            ),
        decreases to - i,
    {
        proof {
            let left = data@.subrange(i as int, to as int);
            assert(left.skip(4) =~= data@.subrange(i + 4, to as int));
            assert(le_u32(left, 0) == le_u32(data@, i as int));
        }
        sum = rotate(sum) ^ u32_at(data, i);
        i = i + 4;
    }
    sum
}

/// Accumulates the bytes between two places.
pub(crate) fn add_bytes(a: u32, data: &[u8], from: usize, to: usize) -> (r: u32)
    requires
        from <= to <= data@.len(),
    ensures
        r == accumulate_bytes(a, data@.subrange(from as int, to as int)),
{
    let mut sum: u32 = a;
    let mut i: usize = from;
    while i < to
        invariant
            from <= i <= to <= data@.len(),
            accumulate_bytes(sum, data@.subrange(i as int, to as int)) == accumulate_bytes(
                a,
                data@.subrange(from as int, to as int),
            ),
        decreases to - i,
    {
        proof {
            let left = data@.subrange(i as int, to as int);
            assert(left.skip(1) =~= data@.subrange(i + 1, to as int));
        }
        sum = rotate(sum) ^ data[i] as u32;
        i = i + 1;
    }
    sum
}

/// Combines the four bytes of a word.
pub(crate) fn fold(a: u32) -> (r: u8)
    ensures
        r == folded(a),
{
    ((a % 0x100) ^ (a / 0x100 % 0x100) ^ (a / 0x1_0000 % 0x100) ^ (a / 0x100_0000)) as u8
}

/// The bytes of some pieces of data, one behind the other.
pub open spec fn spans(pieces: Seq<&[u8]>) -> Seq<u8> {
    pieces.map_values(|piece: &[u8]| piece@).flatten()
}

/// One more piece.
pub proof fn lemma_spans_push(pieces: Seq<&[u8]>, piece: &[u8])
    ensures
        spans(pieces.push(piece)) == spans(pieces) + piece@,
{
    let contents = pieces.map_values(|piece: &[u8]| piece@);
    assert(pieces.push(piece).map_values(|piece: &[u8]| piece@) =~= contents.push(piece@));
    contents.lemma_flatten_push(piece@);
}

/// Puts some bytes behind others.
pub(crate) fn append_bytes(data: &mut Vec<u8>, piece: &[u8])
    ensures
        final(data)@ == old(data)@ + piece@,
{
    let ghost before = data@;
    let total: usize = piece.len();
    let mut i: usize = 0;
    while i < total
        invariant
            i <= total == piece@.len(),
            data@ == before + piece@.take(i as int),
        decreases total - i,
    {
        data.push(piece[i]);
        i = i + 1;
        assert(before + piece@.take(i as int) =~= (before + piece@.take(i - 1)).push(
            piece@[i - 1],
        ));
    }
    assert(piece@.take(total as int) =~= piece@);
}

} // verus!
