//! Fragment blocks as bits: a number of fixed length, some zeros, and a one.

use vstd::arithmetic::power2::*;
use vstd::prelude::*;

use super::util::{bit, bit_index, bit_input_wf, bits_fit, take_ls_bit, BitInput, FragmentId};
use super::{bare, Cause, CauseView, ParseError};

verus! {

/// Where the first one at or behind `i` lies.
pub open spec fn run_end(s: Seq<u8>, i: int) -> Option<int>
    decreases 8 * s.len() - i,
{
    if i < 0 || i >= 8 * s.len() {
        None
    } else if bit(s, i) {
        Some(i)
    } else {
        run_end(s, i + 1)
    }
}

/// The number that `n` bits from `p` on stand for, least significant bits first.
pub open spec fn bits_value(s: Seq<u8>, p: int, n: nat) -> nat
    decreases n,
{
    if n == 0 {
        0
    } else {
        bits_value(s, p, (n - 1) as nat) + if bit(s, p + n - 1) {
            pow2((n - 1) as nat)
        } else {
            0
        }
    }
}

/// A number of `n` bits is less than two to the power of `n`.
pub proof fn lemma_bits_value_bound(s: Seq<u8>, p: int, n: nat)
    ensures
        bits_value(s, p, n) < pow2(n),
    decreases n,
{
    lemma2_to64();
    if n > 0 {
        lemma_bits_value_bound(s, p, (n - 1) as nat);
        lemma_pow2_unfold(n);
    }
}

/// The end of a run lies in the stream, and only zeros lie before it.
pub proof fn lemma_run_end(s: Seq<u8>, i: int)
    requires
        0 <= i,
    ensures
        match run_end(s, i) {
            Some(last) => {
                &&& i <= last < 8 * s.len()
                &&& bit(s, last)
                &&& forall|j: int| i <= j < last ==> !bit(s, j)
            },
            None => forall|j: int| i <= j < 8 * s.len() ==> !bit(s, j),
        },
    decreases 8 * s.len() - i,
{
    if i < 8 * s.len() && !bit(s, i) {
        lemma_run_end(s, i + 1);
    }
}

/// The number that the block at bit `p` begins with, and how many bits it takes: it
/// ends with the first one behind the number.
pub open spec fn raw_block_at(s: Seq<u8>, p: int, idlen: nat) -> Option<(FragmentId, int)> {
    match run_end(s, p + idlen) {
        None => None,
        Some(last) => Some((bits_value(s, p, idlen) as FragmentId, last - p + 1)),
    }
}

/// A block is longer than its number, and lies in the stream.
pub proof fn lemma_raw_block(s: Seq<u8>, p: int, idlen: nat)
    requires
        0 <= p,
    ensures
        raw_block_at(s, p, idlen) matches Some((_, length)) ==> idlen < length <= 8 * s.len() - p,
{
    lemma_run_end(s, p + idlen);
}

/// Reads the number of a block and counts its bits.
pub fn parse_raw_block(input: &mut BitInput<'_>, idlen: usize) -> (r: Result<
    (FragmentId, usize),
    ParseError,
>)
    requires
        bit_input_wf(*old(input)),
        old(input).0.bits_fit(),
        idlen <= 16,
    ensures
        bit_input_wf(*final(input)),
        final(input).0.data == old(input).0.data,
        ({
            let expected = raw_block_at(old(input).0.data@, bit_index(*old(input)), idlen as nat);
            match r {
                Ok((id, length)) => {
                    &&& expected == Some((id, length as int))
                    &&& bit_index(*final(input)) == bit_index(*old(input)) + length
                },
                Err(e) => {
                    &&& expected is None
                    &&& e@ == bare(CauseView::Incomplete)
                    &&& *final(input) == *old(input)
                },
            }
        }),
{
    let ghost s = input.0.data@;
    let ghost p = bit_index(*input);
    let begin: BitInput<'_> = *input;
    let total: usize = input.0.data.len();
    if input.0.pos >= total {
        return Err(ParseError::new(Cause::Incomplete));
    }
    let mut id: u16 = 0;
    let mut weight: u32 = 1;
    let mut n: usize = 0;
    proof {
        lemma2_to64();
    }
    while n < idlen
        invariant
            bit_input_wf(*input),
            input.0.data == old(input).0.data,
            begin == *old(input),
            bit_input_wf(begin),
            s == input.0.data@,
            p == bit_index(*old(input)),
            bit_index(*input) == p + n,
            n <= idlen,
            idlen <= 16,
            id == bits_value(s, p, n as nat),
            weight == pow2(n as nat),
        decreases idlen - n,
    {
        proof {
            lemma2_to64();
            lemma_bits_value_bound(s, p, (n + 1) as nat);
            lemma_pow2_unfold((n + 1) as nat);
            if n + 1 < 16 {
                lemma_pow2_strictly_increases((n + 1) as nat, 16);
            }
        }
        match take_ls_bit(input) {
            Ok(b) => {
                if b {
                    id = id + weight as u16;
                }
            },
            Err(e) => {
                assert(run_end(s, p + idlen) is None);
                *input = begin;
                return Err(e);
            },
        }
        weight = 2 * weight;
        n = n + 1;
    }
    let mut map_length: usize = idlen;
    let mut found = false;
    while !found
        invariant
            bit_input_wf(*input),
            input.0.data == old(input).0.data,
            begin == *old(input),
            bit_input_wf(begin),
            s == input.0.data@,
            p == bit_index(*old(input)),
            p >= 0,
            idlen <= 16,
            bits_fit(s.len()),
            map_length <= 8 * s.len() - p + 16,
            !found ==> {
                &&& bit_index(*input) == p + map_length
                &&& run_end(s, p + idlen) == run_end(s, p + map_length)
            },
            found ==> {
                &&& map_length >= 1
                &&& bit_index(*input) == p + map_length
                &&& run_end(s, p + idlen) == Some(p + map_length - 1)
            },
        decreases (if found { 0int } else { 8 * s.len() - bit_index(*input) + 1 }),
    {
        match take_ls_bit(input) {
            Ok(b) => {
                found = b;
                map_length = map_length + 1;
            },
            Err(e) => {
                *input = begin;
                return Err(e);
            },
        }
    }
    Ok((id, map_length))
}

/// The bits of a byte, the least significant one first, are its binary digits.
pub proof fn lemma_bits_of_byte(s: Seq<u8>, i: int)
    requires
        0 <= i < s.len(),
    ensures
        bits_value(s, 8 * i, 8) == s[i],
{
    let b = s[i];
    reveal_with_fuel(bits_value, 9);
    lemma2_to64();
    assert(forall|k: int| 0 <= k < 8 ==> #[trigger] ((8 * i + k) / 8) == i && (8 * i + k) % 8 == k);
    assert(b == (b >> 0u8) % 2 + 2 * ((b >> 1u8) % 2) + 4 * ((b >> 2u8) % 2) + 8 * ((b >> 3u8) % 2)
        + 16 * ((b >> 4u8) % 2) + 32 * ((b >> 5u8) % 2) + 64 * ((b >> 6u8) % 2) + 128 * ((b >> 7u8)
        % 2)) by (bit_vector);
    assert((8 * i + 0) / 8 == i && (8 * i + 1) / 8 == i && (8 * i + 2) / 8 == i && (8 * i + 3) / 8
        == i);
    assert((8 * i + 4) / 8 == i && (8 * i + 5) / 8 == i && (8 * i + 6) / 8 == i && (8 * i + 7) / 8
        == i);
}

} // verus!
