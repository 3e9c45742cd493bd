//! The allocation map, as it is written on a disc.

use vstd::arithmetic::power2::*;
use vstd::prelude::*;

use crate::new_map::allocation::{
    block_at, blocks_at, by_position, fragments_at, walked, FragmentBlock,
};
use crate::new_map::bits::{bits_value, lemma_run_end, raw_block_at, run_end};
use crate::new_map::chain::free_chain;
use crate::new_map::record::AllocationParsingParams;
use crate::new_map::util::{bit, bits_fit, BitPosition, FragmentId};
use crate::new_map::{CauseView, Defect, FaultView};

verus! {

/// Whether bit `i` of a byte string is a one: in each byte the bit that is worth least comes
/// first.
pub open spec fn is_one(s: Seq<u8>, i: int) -> bool {
    (s[i / 8] as int / pow2((i % 8) as nat) as int) % 2 == 1
}

/// Bits are read as they are written.
pub proof fn law_bits(s: Seq<u8>, i: int)
    requires
        0 <= i < 8 * s.len(),
    ensures
        bit(s, i) <==> is_one(s, i),
{
    let b = s[i / 8];
    let k = (i % 8) as u8;
    vstd::bits::lemma_u8_shr_is_div(b, k);
}

/// Whether a block is written at bit `p`: `idlen` bits that spell its number, the one that is
/// worth least first, then zeros, and a one that ends it. It takes `length` bits in all.
pub open spec fn holds_block(s: Seq<u8>, p: int, idlen: nat, id: int, length: int) -> bool {
    &&& 0 <= p
    &&& 0 <= id < pow2(idlen)
    &&& idlen < length
    &&& p + length <= 8 * s.len()
    &&& forall|j: int|
        0 <= j < idlen ==> (#[trigger] is_one(s, p + j) <==> (id / pow2(j as nat) as int) % 2 == 1)
    &&& forall|j: int| idlen <= j < length - 1 ==> !#[trigger] is_one(s, p + j)
    &&& is_one(s, p + length - 1)
}

proof fn lemma_number(s: Seq<u8>, p: int, idlen: nat, id: int, length: int, n: nat)
    requires
        holds_block(s, p, idlen, id, length),
        n <= idlen,
    ensures
        bits_value(s, p, n) == id % pow2(n) as int,
    decreases n,
{
    lemma2_to64();
    if n > 0 {
        let m = (n - 1) as nat;
        lemma_number(s, p, idlen, id, length, m);
        let half = pow2(m) as int;
        lemma_pow2_pos(m);
        lemma_pow2_unfold(n);
        law_bits(s, p + m);
        assert(is_one(s, p + m) <==> (id / pow2(m as int as nat) as int) % 2 == 1);
        let q = id / half;
        vstd::arithmetic::div_mod::lemma_fundamental_div_mod(id, half);
        vstd::arithmetic::div_mod::lemma_fundamental_div_mod(q, 2);
        let low = id % half;
        let d = q % 2;
        let top = q / 2;
        assert(id == (2 * half) * top + (half * d + low)) by (nonlinear_arith)
            requires
                id == half * q + low,
                q == 2 * top + d,
        ;
        assert(0 <= half * d + low < 2 * half) by (nonlinear_arith)
            requires
                0 <= d <= 1,
                0 <= low < half,
        ;
        vstd::arithmetic::div_mod::lemma_fundamental_div_mod_converse(
            id,
            2 * half,
            top,
            half * d + low,
        );
        if d == 1 {
            assert(half * d == half) by (nonlinear_arith)
                requires
                    d == 1,
            ;
        } else {
            assert(half * d == 0) by (nonlinear_arith)
                requires
                    d == 0,
            ;
        }
    } else {
        assert(id % 1 == 0);
    }
}

proof fn lemma_run(s: Seq<u8>, i: int, last: int)
    requires
        0 <= i <= last < 8 * s.len(),
        bit(s, last),
        forall|j: int| i <= j < last ==> !#[trigger] bit(s, j),
    ensures
        run_end(s, i) == Some(last),
{
    lemma_run_end(s, i);
    match run_end(s, i) {
        Some(end) => {
            if end < last {
                assert(!bit(s, end));
            }
        },
        None => {},
    }
}

/// The number and the length of a block that was written are read back.
pub proof fn law_raw_block(s: Seq<u8>, p: int, idlen: nat, id: int, length: int)
    requires
        holds_block(s, p, idlen, id, length),
        idlen <= 16,
    ensures
        raw_block_at(s, p, idlen) == Some((id as FragmentId, length)),
        0 <= id < 65536,
{
    lemma_number(s, p, idlen, id, length, idlen);
    lemma_pow2_pos(idlen);
    vstd::arithmetic::div_mod::lemma_small_mod(id as nat, pow2(idlen));
    lemma2_to64();
    if idlen < 16 {
        lemma_pow2_strictly_increases(idlen, 16);
    }
    let last = p + length - 1;
    law_bits(s, last);
    assert forall|j: int| p + idlen <= j < last implies !#[trigger] bit(s, j) by {
        law_bits(s, j);
        assert(!is_one(s, p + (j - p)));
    }
    lemma_run(s, p + idlen, last);
}

proof fn lemma_digit(s: Seq<u8>, p: int, n: nat, j: nat)
    requires
        j < n,
    ensures
        (bits_value(s, p, n) as int / pow2(j) as int) % 2 == if bit(s, p + j) {
            1int
        } else {
            0int
        },
    decreases n,
{
    let m = (n - 1) as nat;
    let low = bits_value(s, p, m) as int;
    let half = pow2(m) as int;
    let d = if bit(s, p + m) {
        1int
    } else {
        0int
    };
    let value = bits_value(s, p, n) as int;
    lemma_pow2_pos(m);
    assert(value == half * d + low) by (nonlinear_arith)
        requires
            d == 1 && value == low + half || d == 0 && value == low,
    ;
    crate::new_map::bits::lemma_bits_value_bound(s, p, m);
    if j == m {
        vstd::arithmetic::div_mod::lemma_fundamental_div_mod_converse(value, half, d, low);
    } else {
        lemma_digit(s, p, m, j);
        let unit = pow2(j) as int;
        lemma_pow2_pos(j);
        let more = pow2((m - j - 1) as nat) as int;
        lemma_pow2_adds(j, (m - j) as nat);
        lemma_pow2_unfold((m - j) as nat);
        assert(half == unit * (2 * more));
        let q = low / unit;
        vstd::arithmetic::div_mod::lemma_fundamental_div_mod(low, unit);
        assert(value == unit * (q + 2 * (more * d)) + low % unit) by (nonlinear_arith)
            requires
                value == half * d + low,
                half == unit * (2 * more),
                low == unit * q + low % unit,
        ;
        vstd::arithmetic::div_mod::lemma_fundamental_div_mod_converse(
            value,
            unit,
            q + 2 * (more * d),
            low % unit,
        );
    }
}

/// Every block that is read was written, and one is read wherever a one follows the bits of
/// its number.
pub proof fn law_every_block(s: Seq<u8>, p: int, idlen: nat)
    requires
        0 <= p,
        idlen <= 16,
    ensures
        raw_block_at(s, p, idlen) matches Some((id, length)) ==> holds_block(
            s,
            p,
            idlen,
            id as int,
            length,
        ),
        raw_block_at(s, p, idlen) is None <==> forall|j: int|
            p + idlen <= j < 8 * s.len() ==> !#[trigger] is_one(s, j),
{
    lemma_run_end(s, p + idlen);
    assert forall|j: int| 0 <= j < 8 * s.len() implies (#[trigger] is_one(s, j) <==> bit(s, j)) by {
        law_bits(s, j);
    }
    if let Some((id, length)) = raw_block_at(s, p, idlen) {
        crate::new_map::bits::lemma_bits_value_bound(s, p, idlen);
        lemma2_to64();
        if idlen < 16 {
            lemma_pow2_strictly_increases(idlen, 16);
        }
        let value = bits_value(s, p, idlen) as int;
        assert(id == value);
        let last = p + length - 1;
        assert(p + idlen <= last < 8 * s.len() && is_one(s, last));
        assert forall|j: int| 0 <= j < idlen implies (#[trigger] is_one(s, p + j) <==> (id as int
            / pow2(j as nat) as int) % 2 == 1) by {
            lemma_digit(s, p, idlen, j as nat);
            law_bits(s, p + j);
        }
        assert forall|j: int| idlen <= j < length - 1 implies !#[trigger] is_one(s, p + j) by {
            assert(!bit(s, p + j));
        }
    }
}

/// A block whose fragment ends behind what can be counted is refused, and so is one whose
/// number has more than sixteen bits.
pub proof fn law_block_out_of_reach(
    s: Seq<u8>,
    p: int,
    params: AllocationParsingParams,
    id: int,
    length: int,
)
    requires
        512 <= p,
    ensures
        ({
            let unit = pow2(params.log_bytes_per_alloc as nat) as int;
            &&& params.fragment_id_length <= 16 && holds_block(
                s,
                p,
                params.fragment_id_length as nat,
                id,
                length,
            ) && (p - 512 + length) * unit > usize::MAX ==> (block_at(s, p, params) matches Err(
                cause,
            ) && cause == CauseView::Defect(Defect::Oversize))
            &&& params.fragment_id_length > 16 && p + 16 < 8 * s.len() ==> (block_at(
                s,
                p,
                params,
            ) matches Err(cause) && cause == CauseView::Defect(Defect::Geometry))
            &&& params.fragment_id_length > 16 && p + 16 >= 8 * s.len() ==> (block_at(
                s,
                p,
                params,
            ) matches Err(cause) && cause == CauseView::Incomplete)
        }),
{
    let idlen = params.fragment_id_length as nat;
    if idlen <= 16 && holds_block(s, p, idlen, id, length) {
        law_raw_block(s, p, idlen, id, length);
    }
}

/// Whether blocks are written one behind the other from bit `p` on, each given by its number
/// and its length.
pub open spec fn holds_blocks(s: Seq<u8>, p: int, idlen: nat, list: Seq<(int, int)>) -> bool
    decreases list.len(),
{
    list.len() == 0 || {
        &&& holds_block(s, p, idlen, list[0].0, list[0].1)
        &&& holds_blocks(s, p + list[0].1, idlen, list.drop_first())
    }
}

/// The bits that the first `n` blocks of a list take.
pub open spec fn bits_of(list: Seq<(int, int)>, n: int) -> int
    decreases n,
{
    if n <= 0 {
        0
    } else {
        bits_of(list, n - 1) + list[n - 1].1
    }
}

pub proof fn lemma_bits_of_rest(list: Seq<(int, int)>, n: int)
    requires
        list.len() > 0,
        0 <= n < list.len(),
    ensures
        bits_of(list, n + 1) == list[0].1 + bits_of(list.drop_first(), n),
    decreases n,
{
    if n > 0 {
        lemma_bits_of_rest(list, n - 1);
        assert(list.drop_first()[n - 1] == list[n]);
    } else {
        reveal_with_fuel(bits_of, 2);
    }
}

/// Whether blocks take `mapped` bits: the last one begins before that many bits end.
pub open spec fn take_bits(list: Seq<(int, int)>, mapped: nat) -> bool {
    let n = list.len() as int;
    if n == 0 {
        mapped == 0
    } else {
        bits_of(list, n - 1) < mapped <= bits_of(list, n)
    }
}

/// Whether a block that was read is the one that was written at bit `at`: its fragment takes
/// as many units of the disc as the block takes bits, and begins as many units behind the
/// beginning of the disc as the block begins bits behind bit 512.
pub open spec fn is_block(
    block: FragmentBlock,
    at: int,
    id: int,
    length: int,
    unit: int,
    free: bool,
) -> bool {
    &&& block.id == id
    &&& block.free_space == free
    &&& block.map_length == length
    &&& block.position.0 == at
    &&& block.disk_region.start == (at - 512) * unit
    &&& block.disk_region.end == (at - 512 + length) * unit
}

pub proof fn lemma_bits_of(list: Seq<(int, int)>, i: int, j: int)
    requires
        0 <= i <= j <= list.len(),
        forall|k: int| 0 <= k < list.len() ==> (#[trigger] list[k]).1 > 0,
    ensures
        bits_of(list, i) <= bits_of(list, j),
        i < j ==> bits_of(list, i) < bits_of(list, j),
    decreases j - i,
{
    if i < j {
        lemma_bits_of(list, i, j - 1);
        assert(list[j - 1].1 > 0);
    }
}

pub proof fn lemma_lengths(s: Seq<u8>, p: int, idlen: nat, list: Seq<(int, int)>)
    requires
        holds_blocks(s, p, idlen, list),
    ensures
        forall|k: int| 0 <= k < list.len() ==> (#[trigger] list[k]).1 > 0,
    decreases list.len(),
{
    if list.len() > 0 {
        let rest = list.drop_first();
        lemma_lengths(s, p + list[0].1, idlen, rest);
        assert forall|k: int| 0 <= k < list.len() implies (#[trigger] list[k]).1 > 0 by {
            if k > 0 {
                assert(rest[k - 1] == list[k]);
            }
        }
    }
}

/// Blocks that were written, and that take as many bits as are mapped, are read back, all of
/// them and in order, as long as bytes of the disc can be counted; nothing behind them is
/// read.
pub proof fn law_blocks(
    s: Seq<u8>,
    p: int,
    list: Seq<(int, int)>,
    mapped: nat,
    params: AllocationParsingParams,
)
    requires
        512 <= p,
        params.fragment_id_length <= 16,
        bits_fit(s.len()),
        holds_blocks(s, p, params.fragment_id_length as nat, list),
        take_bits(list, mapped),
        (p - 512 + bits_of(list, list.len() as int)) * pow2(params.log_bytes_per_alloc as nat)
            <= usize::MAX,
    ensures
        blocks_at(s, p, mapped, params) matches Ok((blocks, end)) && {
            &&& end == p + bits_of(list, list.len() as int)
            &&& blocks.len() == list.len()
            &&& forall|i: int|
                0 <= i < list.len() ==> is_block(
                    #[trigger] blocks[i],
                    p + bits_of(list, i),
                    list[i].0,
                    list[i].1,
                    pow2(params.log_bytes_per_alloc as nat) as int,
                    false,
                )
        },
    decreases list.len(),
{
    let unit = pow2(params.log_bytes_per_alloc as nat) as int;
    let total = bits_of(list, list.len() as int);
    if list.len() > 0 {
        let (id, length) = list[0];
        let rest = list.drop_first();
        let n = rest.len() as int;
        lemma_bits_of_rest(list, n);
        lemma_lengths(s, p, params.fragment_id_length as nat, list);
        law_raw_block(s, p, params.fragment_id_length as nat, id, length);
        assert((p + length - 512 + bits_of(rest, n)) == (p - 512 + total));
        let left = if mapped > length {
            (mapped - length) as nat
        } else {
            0
        };
        assert(bits_of(list, 0) == 0);
        if n > 0 {
            lemma_bits_of_rest(list, n - 1);
            lemma_bits_of(list, 1, n);
            lemma_bits_of_rest(list, 0);
        } else {
            assert(bits_of(rest, 0) == 0);
        }
        assert(take_bits(rest, left));
        law_blocks(s, p + length, rest, left, params);
        lemma_bits_of(list, 0, n + 1);
        lemma_bits_of(list, 1, n + 1);
        lemma_bits_of_rest(list, 0);
        assert(length <= total);
        assert((p - 512 + length) * unit <= (p - 512 + total) * unit) by (nonlinear_arith)
            requires
                length <= total,
                unit >= 0,
        ;
        assert(0 <= (p - 512) * unit <= (p - 512 + length) * unit) by (nonlinear_arith)
            requires
                length >= 0,
                unit >= 0,
                p >= 512,
        ;
        let block = block_at(s, p, params)->Ok_0;
        assert(is_block(block, p, id, length, unit, false));
        let more = blocks_at(s, p + length, left, params)->Ok_0.0;
        let blocks = seq![block] + more;
        assert forall|i: int| 0 <= i < list.len() implies is_block(
            #[trigger] blocks[i],
            p + bits_of(list, i),
            list[i].0,
            list[i].1,
            unit,
            false,
        ) by {
            if i > 0 {
                lemma_bits_of_rest(list, i - 1);
                assert(blocks[i] == more[i - 1]);
                assert(rest[i - 1] == list[i]);
                assert(is_block(
                    more[i - 1],
                    p + length + bits_of(rest, i - 1),
                    rest[i - 1].0,
                    rest[i - 1].1,
                    unit,
                    false,
                ));
            }
        }
    }
}

/// Whether `places` are the free fragments of a zone whose map begins at byte `zone_start`, as
/// far as the list of them goes: the first one lies `link` bits behind byte 1 of the zone,
/// each holds the distance to the next, and a block begins at each of them.
pub open spec fn is_free_list(
    blocks: Map<usize, FragmentBlock>,
    zone_start: int,
    link: u16,
    places: Seq<usize>,
) -> bool {
    &&& places.len() > 0
    &&& places[0] == 8 * zone_start + 8 + link
    &&& forall|i: int| 0 <= i < places.len() ==> blocks.contains_key(#[trigger] places[i])
    &&& forall|i: int|
        #![trigger places[i]]
        0 <= i < places.len() - 1 ==> {
            &&& blocks[places[i]].id > 0
            &&& places[i + 1] == places[i] + blocks[places[i]].id
        }
}

pub proof fn lemma_chain(ids: Map<usize, u16>, places: Seq<usize>, at: int)
    requires
        0 <= at < places.len(),
        forall|i: int| at <= i < places.len() ==> ids.contains_key(#[trigger] places[i]),
        forall|i: int|
            #![trigger places[i]]
            at <= i < places.len() - 1 ==> ids[places[i]] > 0 && places[i + 1] == places[i]
                + ids[places[i]],
        ids[places.last()] == 0 || {
            let dest = places.last() + ids[places.last()];
            dest <= usize::MAX && !ids.contains_key(dest as usize)
        },
    ensures
        free_chain(ids, places[at]).0 == places.skip(at),
        free_chain(ids, places[at]).1 == if ids[places.last()] == 0 {
            None
        } else {
            Some((places.last() + ids[places.last()]) as usize)
        },
    decreases places.len() - at,
{
    if at == places.len() - 1 {
        assert(places.skip(at) =~= seq![places[at]]);
    } else {
        assert(places[at + 1] == places[at] + ids[places[at]]);
        assert(ids.contains_key(places[at + 1]));
        lemma_chain(ids, places, at + 1);
        assert(places.skip(at) =~= seq![places[at]] + places.skip(at + 1));
    }
}

/// Walking the list of free fragments marks those on the list, and changes nothing else.
/// It fails where no fragment begins where the list should, and where the last fragment on
/// it points at a place where none begins.
pub proof fn law_free_list(
    blocks: Map<usize, FragmentBlock>,
    zone_start: int,
    link: u16,
    places: Seq<usize>,
)
    requires
        0 <= zone_start,
        8 * zone_start + 8 + link <= usize::MAX,
    ensures
        !blocks.contains_key((8 * zone_start + 8 + link) as usize) ==> walked(
            blocks,
            zone_start,
            link,
        ) == (blocks, Some(FaultView::InvalidFreeLink(link))),
        is_free_list(blocks, zone_start, link, places) ==> {
            let last = blocks[places.last()].id;
            let dest = places.last() + last;
            let (marked, fault) = walked(blocks, zone_start, link);
            &&& last == 0 ==> fault is None
            &&& last > 0 && dest <= usize::MAX && !blocks.contains_key(dest as usize) ==> fault
                == Some(
                FaultView::BrokenFreeChain {
                    origin: BitPosition(places.last()),
                    dest_bit_offset: BitPosition(dest as usize),
                },
            )
            &&& last == 0 || (dest <= usize::MAX && !blocks.contains_key(dest as usize)) ==> {
                &&& forall|k: usize| marked.contains_key(k) <==> #[trigger] blocks.contains_key(k)
                &&& forall|k: usize| #[trigger]
                    blocks.contains_key(k) ==> {
                        &&& marked[k].free_space == (blocks[k].free_space || places.contains(k))
                        &&& marked[k].id == blocks[k].id
                        &&& marked[k].map_length == blocks[k].map_length
                        &&& marked[k].position == blocks[k].position
                        &&& marked[k].disk_region == blocks[k].disk_region
                    }
            }
        },
{
    if is_free_list(blocks, zone_start, link, places) {
        let ids = crate::new_map::allocation::block_ids(blocks);
        let last = blocks[places.last()].id;
        let dest = places.last() + last;
        assert(blocks.contains_key(places[0]));
        assert(blocks.contains_key(places[places.len() - 1]));
        if last == 0 || (dest <= usize::MAX && !blocks.contains_key(dest as usize)) {
            assert forall|i: int| 0 <= i < places.len() implies ids.contains_key(
                #[trigger] places[i],
            ) by {
                assert(blocks.contains_key(places[i]));
            }
            assert forall|i: int|
                #![trigger places[i]]
                0 <= i < places.len() - 1 implies ids[places[i]] > 0 && places[i + 1] == places[i]
                + ids[places[i]] by {
                assert(blocks.contains_key(places[i]));
            }
            lemma_chain(ids, places, 0);
            assert(places.skip(0) =~= places);
            crate::new_map::allocation::lemma_walked_keeps(blocks, zone_start, link);
            let marked = walked(blocks, zone_start, link).0;
            assert forall|k: usize| marked.contains_key(k) <==> #[trigger] blocks.contains_key(
                k,
            ) by {
                assert(marked.dom().contains(k) == blocks.dom().contains(k));
            }
        }
    }
}

/// Where a block of a map begins, in bits from the beginning of the image.
pub open spec fn begins_at(map_start: int, list: Seq<(int, int)>, i: int) -> int {
    8 * map_start + bits_of(list, i)
}

/// Whether a block says where another one begins, as many bits further as its number tells.
pub open spec fn says_next(map_start: int, list: Seq<(int, int)>, i: int, next: int) -> bool {
    &&& list[i].0 > 0
    &&& begins_at(map_start, list, next) == begins_at(map_start, list, i) + list[i].0
}

/// Whether `free` are the blocks of a list that stand for free space, as a link says: there
/// are none where the link is 0. Otherwise the first one begins `link` bits behind byte 1 of
/// the zone, each says how many bits further the next one begins, and the last one says 0.
pub open spec fn are_free(
    zone_start: int,
    map_start: int,
    list: Seq<(int, int)>,
    link: u16,
    free: Seq<int>,
) -> bool {
    if link == 0 {
        free.len() == 0
    } else {
        &&& free.len() > 0
        &&& forall|i: int| 0 <= i < free.len() ==> 0 <= #[trigger] free[i] < list.len()
        &&& begins_at(map_start, list, free[0]) == 8 * zone_start + 8 + link
        &&& forall|i: int|
            0 <= i < free.len() - 1 ==> #[trigger] says_next(map_start, list, free[i], free[i + 1])
        &&& list[free.last()].0 == 0
    }
}

proof fn lemma_by_position(blocks: Seq<FragmentBlock>)
    requires
        forall|i: int, j: int|
            0 <= i < j < blocks.len() ==> (#[trigger] blocks[i]).position.0 != (
            #[trigger] blocks[j]).position.0,
    ensures
        forall|i: int|
            #![trigger blocks[i]]
            0 <= i < blocks.len() ==> by_position(blocks).contains_key(blocks[i].position.0)
                && by_position(blocks)[blocks[i].position.0] == blocks[i],
        forall|k: usize| #[trigger]
            by_position(blocks).contains_key(k) ==> exists|i: int|
                0 <= i < blocks.len() && (#[trigger] blocks[i]).position.0 == k,
    decreases blocks.len(),
{
    if blocks.len() > 0 {
        let before = blocks.drop_last();
        let n = blocks.len() - 1;
        lemma_by_position(before);
        assert forall|i: int|
            #![trigger blocks[i]]
            0 <= i < blocks.len() implies by_position(blocks).contains_key(blocks[i].position.0)
            && by_position(blocks)[blocks[i].position.0] == blocks[i] by {
            if i < n {
                assert(before[i] == blocks[i]);
                assert(blocks[i].position.0 != blocks[n].position.0);
            }
        }
        assert forall|k: usize| #[trigger] by_position(blocks).contains_key(k) implies exists|
            i: int,
        | 0 <= i < blocks.len() && (#[trigger] blocks[i]).position.0 == k by {
            if k == blocks[n].position.0 {
                assert(blocks[n].position.0 == k);
            } else {
                assert(by_position(before).contains_key(k));
                let i = choose|i: int|
                    0 <= i < before.len() && (#[trigger] before[i]).position.0 == k;
                assert(blocks[i].position.0 == k);
            }
        }
    }
}

/// Whether the block at a place was written as block `i` of a list.
pub open spec fn is_fragment(
    fragments: Map<usize, FragmentBlock>,
    map_start: int,
    list: Seq<(int, int)>,
    unit: int,
    i: int,
    free: bool,
) -> bool {
    let at = begins_at(map_start, list, i);
    &&& 0 <= at <= usize::MAX
    &&& fragments.contains_key(at as usize)
    &&& is_block(fragments[at as usize], at, list[i].0, list[i].1, unit, free)
}

/// Whether these are the fragments that were written at byte `map_start`.
pub open spec fn are_fragments(
    fragments: Map<usize, FragmentBlock>,
    map_start: int,
    list: Seq<(int, int)>,
    unit: int,
    free: Seq<int>,
) -> bool {
    &&& forall|i: int|
        #![trigger begins_at(map_start, list, i)]
        0 <= i < list.len() ==> is_fragment(
            fragments,
            map_start,
            list,
            unit,
            i,
            free.contains(i),
        )
    &&& forall|k: usize| #[trigger]
        fragments.contains_key(k) ==> exists|i: int|
            0 <= i < list.len() && k == #[trigger] begins_at(map_start, list, i)
}

/// The blocks that were written, by the places where they begin.
pub proof fn lemma_read(
    s: Seq<u8>,
    map_start: int,
    list: Seq<(int, int)>,
    mapped: nat,
    params: AllocationParsingParams,
)
    requires
        64 <= map_start,
        params.fragment_id_length <= 16,
        bits_fit(s.len()),
        holds_blocks(s, 8 * map_start, params.fragment_id_length as nat, list),
        take_bits(list, mapped),
        (begins_at(map_start, list, list.len() as int) - 512) * pow2(
            params.log_bytes_per_alloc as nat,
        ) <= usize::MAX,
    ensures
        blocks_at(s, 8 * map_start, mapped, params) matches Ok((blocks, end)) && {
            &&& are_fragments(
                by_position(blocks),
                map_start,
                list,
                pow2(params.log_bytes_per_alloc as nat) as int,
                Seq::empty(),
            )
            &&& end == begins_at(map_start, list, list.len() as int)
        },
        forall|k: int| 0 <= k < list.len() ==> (#[trigger] list[k]).1 > 0,
{
    let unit = pow2(params.log_bytes_per_alloc as nat) as int;
    law_blocks(s, 8 * map_start, list, mapped, params);
    lemma_lengths(s, 8 * map_start, params.fragment_id_length as nat, list);
    let blocks = blocks_at(s, 8 * map_start, mapped, params)->Ok_0.0;
    assert forall|i: int, j: int| 0 <= i < j < blocks.len() implies (
    #[trigger] blocks[i]).position.0 != (#[trigger] blocks[j]).position.0 by {
        lemma_bits_of(list, i, j);
    }
    lemma_by_position(blocks);
    let read = by_position(blocks);
    assert forall|i: int| 0 <= i < list.len() implies #[trigger] is_fragment(
        read,
        map_start,
        list,
        unit,
        i,
        false,
    ) by {
        assert(is_block(
            blocks[i],
            8 * map_start + bits_of(list, i),
            list[i].0,
            list[i].1,
            unit,
            false,
        ));
        assert(read.contains_key(blocks[i].position.0));
    }
    assert forall|i: int| !#[trigger] Seq::<int>::empty().contains(i) by {}
    assert forall|k: usize| #[trigger] read.contains_key(k) implies exists|i: int|
        0 <= i < list.len() && k == #[trigger] begins_at(map_start, list, i) by {
        let i = choose|i: int| 0 <= i < blocks.len() && (#[trigger] blocks[i]).position.0 == k;
        assert(k == begins_at(map_start, list, i));
    }
}

/// The blocks after the free ones have been marked.
proof fn lemma_marked(
    read: Map<usize, FragmentBlock>,
    zone_start: int,
    map_start: int,
    list: Seq<(int, int)>,
    unit: int,
    link: u16,
    free: Seq<int>,
)
    requires
        0 <= zone_start,
        link > 0,
        are_fragments(read, map_start, list, unit, Seq::empty()),
        are_free(zone_start, map_start, list, link, free),
        forall|k: int| 0 <= k < list.len() ==> (#[trigger] list[k]).1 > 0,
    ensures
        walked(read, zone_start, link).1 is None,
        are_fragments(walked(read, zone_start, link).0, map_start, list, unit, free),
{
    let places = free.map_values(|i: int| begins_at(map_start, list, i) as usize);
    lemma_free_places(read, zone_start, map_start, list, unit, link, free);
    law_free_list(read, zone_start, link, places);
    let marked = walked(read, zone_start, link).0;
    assert forall|i: int| !#[trigger] Seq::<int>::empty().contains(i) by {}
    assert forall|i: int| 0 <= i < list.len() implies #[trigger] is_fragment(
        marked,
        map_start,
        list,
        unit,
        i,
        free.contains(i),
    ) by {
        let at = begins_at(map_start, list, i);
        assert(is_fragment(read, map_start, list, unit, i, Seq::<int>::empty().contains(i)));
        assert(read.contains_key(at as usize));
        if free.contains(i) {
            let j = choose|j: int| 0 <= j < free.len() && free[j] == i;
            assert(places[j] == at);
            assert(places.contains(at as usize));
        } else if places.contains(at as usize) {
            let j = choose|j: int| 0 <= j < places.len() && places[j] == at as usize;
            let other = free[j];
            assert(0 <= other < list.len());
            assert(is_fragment(
                read,
                map_start,
                list,
                unit,
                other,
                Seq::<int>::empty().contains(other),
            )) by {
                let there = begins_at(map_start, list, other);
            }
            assert(places[j] == begins_at(map_start, list, other));
            if other < i {
                lemma_bits_of(list, other, i);
            } else if i < other {
                lemma_bits_of(list, i, other);
            } else {
                assert(free.contains(i));
            }
        }
    }
    assert forall|k: usize| #[trigger] marked.contains_key(k) implies exists|i: int|
        0 <= i < list.len() && k == #[trigger] begins_at(map_start, list, i) by {
        assert(read.contains_key(k));
    }
}

/// The places of the free blocks.
proof fn lemma_free_places(
    read: Map<usize, FragmentBlock>,
    zone_start: int,
    map_start: int,
    list: Seq<(int, int)>,
    unit: int,
    link: u16,
    free: Seq<int>,
)
    requires
        0 <= zone_start,
        link > 0,
        are_fragments(read, map_start, list, unit, Seq::empty()),
        are_free(zone_start, map_start, list, link, free),
    ensures
        ({
            let places = free.map_values(|i: int| begins_at(map_start, list, i) as usize);
            &&& is_free_list(read, zone_start, link, places)
            &&& read[places.last()].id == 0
            &&& 8 * zone_start + 8 + link <= usize::MAX
        }),
{
    let places = free.map_values(|i: int| begins_at(map_start, list, i) as usize);
    assert forall|i: int| 0 <= i < free.len() implies {
        &&& #[trigger] places[i] == begins_at(map_start, list, free[i])
        &&& read.contains_key(places[i])
        &&& read[places[i]].id == list[free[i]].0
    } by {
        let f = free[i];
        assert(0 <= f < list.len());
        let at = begins_at(map_start, list, f);
        assert(is_fragment(read, map_start, list, unit, f, Seq::<int>::empty().contains(f)));
    }
    assert(places[0] == begins_at(map_start, list, free[0]));
    assert forall|i: int|
        #![trigger places[i]]
        0 <= i < places.len() - 1 implies {
        &&& read[places[i]].id > 0
        &&& places[i + 1] == places[i] + read[places[i]].id
    } by {
        assert(says_next(map_start, list, free[i], free[i + 1]));
        assert(places[i + 1] == begins_at(map_start, list, free[i + 1]));
    }
    assert(places.last() == places[places.len() - 1]);
    assert(free.last() == free[free.len() - 1]);
}

/// What a map says is what was written into it: its fragments are the blocks of the list, and
/// those of them are free that the link leads to. The map ends with the byte that holds its
/// last bit.
pub proof fn law_fragments(
    s: Seq<u8>,
    map_start: int,
    zone_start: int,
    list: Seq<(int, int)>,
    free: Seq<int>,
    params: AllocationParsingParams,
)
    requires
        64 <= map_start,
        0 <= zone_start,
        params.fragment_id_length <= 16,
        bits_fit(s.len()),
        holds_blocks(s, 8 * map_start, params.fragment_id_length as nat, list),
        take_bits(list, params.mapped_space_in_alloc_units as nat),
        are_free(zone_start, map_start, list, params.free_link, free),
        (begins_at(map_start, list, list.len() as int) - 512) * pow2(
            params.log_bytes_per_alloc as nat,
        ) <= usize::MAX,
    ensures
        fragments_at(s, map_start, zone_start, params) matches Ok((fragments, end)) && {
            let last = begins_at(map_start, list, list.len() as int);
            &&& are_fragments(
                fragments,
                map_start,
                list,
                pow2(params.log_bytes_per_alloc as nat) as int,
                free,
            )
            &&& last <= 8 * end < last + 8
        },
{
    let unit = pow2(params.log_bytes_per_alloc as nat) as int;
    let mapped = params.mapped_space_in_alloc_units as nat;
    let link = params.free_link;
    lemma_read(s, map_start, list, mapped, params);
    let read = by_position(blocks_at(s, 8 * map_start, mapped, params)->Ok_0.0);
    if link > 0 {
        lemma_marked(read, zone_start, map_start, list, unit, link, free);
    } else {
        assert(free =~= Seq::empty());
    }
}

} // verus!
