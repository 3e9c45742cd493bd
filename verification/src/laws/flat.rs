//! The map of a disc as a list of its fragments.

use vstd::arithmetic::power2::*;
use vstd::prelude::*;

use super::blocks::{
    are_free, begins_at, bits_of, holds_blocks, law_raw_block, lemma_bits_of, lemma_bits_of_rest,
    lemma_chain, lemma_lengths, says_next, take_bits,
};
use super::geometry::{goes_into, law_mapped_units, law_rest_of_sector};
use super::maps::{is_written, lemma_quotient};
use super::numbers::spells;
use super::records::{law_header, law_same_record};
use crate::flat_map;
use crate::flat_map::{
    block_at, block_ids, blocks_at, leading_block_at, map_at, map_block_at, walked,
    AllocationParsingParams, FragmentBlock, LoadFailure,
};
use crate::new_map::record;
use crate::new_map::record::{header_at, record_at, record_failure, Header};
use crate::new_map::util::bits_fit;
use crate::new_map::Defect;
use crate::LoadErrors;

verus! {

/// Whether a block that was read is the one that was written at bit `at`: its fragment takes
/// as many units of the disc as the block takes bits, if so many bytes can be counted.
pub open spec fn is_listed(
    block: FragmentBlock,
    at: int,
    id: int,
    length: int,
    unit: int,
    free: bool,
) -> bool {
    &&& block.id == id
    &&& block.free_space == free
    &&& block.total_length == length
    &&& length * unit <= usize::MAX ==> block.byte_size == length * unit
    &&& block.position.0 == at
}

/// Whether these are the blocks that were written at byte `map_start`, in order.
pub open spec fn are_listed(
    blocks: Seq<FragmentBlock>,
    map_start: int,
    list: Seq<(int, int)>,
    unit: int,
    free: Seq<int>,
) -> bool {
    &&& blocks.len() == list.len()
    &&& forall|i: int|
        0 <= i < list.len() ==> is_listed(
            #[trigger] blocks[i],
            begins_at(map_start, list, i),
            list[i].0,
            list[i].1,
            unit,
            free.contains(i),
        )
}

proof fn lemma_listed(
    s: Seq<u8>,
    p: int,
    list: Seq<(int, int)>,
    mapped: nat,
    params: AllocationParsingParams,
)
    requires
        0 <= p,
        params.fragment_id_length <= 16,
        params.log_bytes_per_alloc < usize::BITS,
        bits_fit(s.len()),
        holds_blocks(s, p, params.fragment_id_length as nat, list),
        take_bits(list, mapped),
    ensures
        blocks_at(s, p, mapped, params) matches Ok((blocks, end)) && {
            &&& end == p + bits_of(list, list.len() as int)
            &&& blocks.len() == list.len()
            &&& forall|i: int|
                0 <= i < list.len() ==> is_listed(
                    #[trigger] blocks[i],
                    p + bits_of(list, i),
                    list[i].0,
                    list[i].1,
                    pow2(params.log_bytes_per_alloc as nat) as int,
                    false,
                )
        },
    decreases list.len(),
{
    let unit = pow2(params.log_bytes_per_alloc as nat) as int;
    if list.len() > 0 {
        let (id, length) = list[0];
        let rest = list.drop_first();
        let n = rest.len() as int;
        lemma_bits_of_rest(list, n);
        lemma_lengths(s, p, params.fragment_id_length as nat, list);
        law_raw_block(s, p, params.fragment_id_length as nat, id, length);
        let left = if mapped > length {
            (mapped - length) as nat
        } else {
            0
        };
        assert(bits_of(list, 0) == 0);
        if n > 0 {
            lemma_bits_of_rest(list, n - 1);
            lemma_bits_of(list, 1, n);
            lemma_bits_of_rest(list, 0);
        } else {
            assert(bits_of(rest, 0) == 0);
        }
        assert(take_bits(rest, left));
        lemma_listed(s, p + length, rest, left, params);
        let block = block_at(s, p, params)->Ok_0;
        if length * unit <= usize::MAX {
            vstd::bits::lemma_usize_shl_is_mul(length as usize, params.log_bytes_per_alloc);
        }
        assert(is_listed(block, p, id, length, unit, false));
        let more = blocks_at(s, p + length, left, params)->Ok_0.0;
        let blocks = seq![block] + more;
        assert forall|i: int| 0 <= i < list.len() implies is_listed(
            #[trigger] blocks[i],
            p + bits_of(list, i),
            list[i].0,
            list[i].1,
            unit,
            false,
        ) by {
            if i > 0 {
                lemma_bits_of_rest(list, i - 1);
                assert(blocks[i] == more[i - 1]);
                assert(rest[i - 1] == list[i]);
            }
        }
    }
}

/// The number at the place of a block.
proof fn lemma_number_at(blocks: Seq<FragmentBlock>, i: int)
    requires
        0 <= i < blocks.len(),
        forall|a: int, b: int|
            0 <= a < b < blocks.len() ==> (#[trigger] blocks[a]).position.0 != (
            #[trigger] blocks[b]).position.0,
    ensures
        block_ids(blocks).contains_key(blocks[i].position.0),
        block_ids(blocks)[blocks[i].position.0] == blocks[i].id,
{
    let k = blocks[i].position.0;
    assert(flat_map::begins_at(blocks, i, k));
    let j = choose|j: int| flat_map::begins_at(blocks, j, k);
    if i < j {
        assert(blocks[i].position.0 != blocks[j].position.0);
    } else if j < i {
        assert(blocks[j].position.0 != blocks[i].position.0);
    }
}

proof fn lemma_listed_free(
    read: Seq<FragmentBlock>,
    zone_start: int,
    map_start: int,
    list: Seq<(int, int)>,
    unit: int,
    link: u16,
    free: Seq<int>,
)
    requires
        0 <= zone_start,
        link > 0,
        are_listed(read, map_start, list, unit, Seq::empty()),
        are_free(zone_start, map_start, list, link, free),
        forall|k: int| 0 <= k < list.len() ==> (#[trigger] list[k]).1 > 0,
    ensures
        walked(read, zone_start, link).1 is None,
        are_listed(walked(read, zone_start, link).0, map_start, list, unit, free),
{
    let places = free.map_values(|i: int| begins_at(map_start, list, i) as usize);
    let ids = block_ids(read);
    assert forall|i: int| !#[trigger] Seq::<int>::empty().contains(i) by {}
    assert forall|a: int, b: int| 0 <= a < b < read.len() implies (#[trigger] read[a]).position.0
        != (#[trigger] read[b]).position.0 by {
        lemma_bits_of(list, a, b);
    }
    assert forall|i: int| 0 <= i < free.len() implies {
        &&& #[trigger] places[i] == begins_at(map_start, list, free[i])
        &&& ids.contains_key(places[i])
        &&& ids[places[i]] == list[free[i]].0
    } by {
        let f = free[i];
        assert(0 <= f < list.len());
        assert(is_listed(
            read[f],
            begins_at(map_start, list, f),
            list[f].0,
            list[f].1,
            unit,
            Seq::<int>::empty().contains(f),
        ));
        lemma_number_at(read, f);
    }
    assert(places[0] == begins_at(map_start, list, free[0]));
    assert forall|i: int|
        #![trigger places[i]]
        0 <= i < places.len() - 1 implies ids[places[i]] > 0 && places[i + 1] == places[i]
        + ids[places[i]] by {
        assert(says_next(map_start, list, free[i], free[i + 1]));
        assert(places[i + 1] == begins_at(map_start, list, free[i + 1]));
    }
    assert(places.last() == places[places.len() - 1]);
    assert(free.last() == free[free.len() - 1]);
    lemma_chain(ids, places, 0);
    assert(places.skip(0) =~= places);
    let marked = walked(read, zone_start, link).0;
    assert forall|i: int| 0 <= i < list.len() implies is_listed(
        #[trigger] marked[i],
        begins_at(map_start, list, i),
        list[i].0,
        list[i].1,
        unit,
        free.contains(i),
    ) by {
        let at = begins_at(map_start, list, i);
        assert(is_listed(
            read[i],
            at,
            list[i].0,
            list[i].1,
            unit,
            Seq::<int>::empty().contains(i),
        ));
        if free.contains(i) {
            let j = choose|j: int| 0 <= j < free.len() && free[j] == i;
            assert(places[j] == at);
            assert(places.contains(read[i].position.0));
        } else if places.contains(read[i].position.0) {
            let j = choose|j: int| 0 <= j < places.len() && places[j] == read[i].position.0;
            let other = free[j];
            assert(places[j] == begins_at(map_start, list, other));
            assert(0 <= other < list.len());
            if other < i {
                lemma_bits_of(list, other, i);
            } else if i < other {
                lemma_bits_of(list, i, other);
            } else {
                assert(free.contains(i));
            }
        }
    }
}

/// The list of the fragments of a zone is what was written: a block for each of them, in
/// order, and those of them are free that the link leads to. It is followed by the rest of
/// its last sector.
pub proof fn law_flat_zone(
    s: Seq<u8>,
    map_start: int,
    zone_start: int,
    header: Header,
    record: record::DiscRecord,
    disc: flat_map::DiscRecord,
    includes_map: bool,
    link: u16,
    list: Seq<(int, int)>,
    free: Seq<int>,
)
    requires
        0 <= map_start,
        0 <= zone_start,
        bits_fit(s.len()),
        record.can_be_mapped(includes_map),
        is_written(s, map_start, zone_start, record, includes_map, link, list, free),
        header.free_link == link,
        disc.log2_sec_size == record.log2_sec_size,
        disc.idlen == record.idlen,
        disc.log2_bytes_per_mapbit == record.log2_bytes_per_mapbit,
        disc.num_zones == record.num_zones,
        disc.size == record.size,
    ensures
        ({
            let unit = pow2(record.log2_bytes_per_mapbit as nat) as int;
            let sector = pow2(record.log2_sec_size as nat) as int;
            let last = begins_at(map_start, list, list.len() as int);
            let found = map_block_at(s, map_start, zone_start, header, includes_map, disc);
            &&& last + 8 * sector <= 8 * s.len() ==> found is Ok
            &&& found matches Err(e) ==> e == LoadFailure::Truncated
            &&& found matches Ok((block, end)) ==> {
                &&& block.header == header
                &&& are_listed(block.allocations, map_start, list, unit, free)
                &&& last <= 8 * end < last + 8 + 8 * sector
                &&& end <= s.len()
                &&& exists|n: int| end == #[trigger] (n * sector)
                &&& exists|from: int|
                    last <= 8 * from < last + 8 && block.unused == #[trigger] s.subrange(from, end)
            }
        }),
{
    let params = AllocationParsingParams::for_zone(includes_map, link, disc);
    let other = record::AllocationParsingParams::for_zone(includes_map, link, record);
    let unit = pow2(record.log2_bytes_per_mapbit as nat) as int;
    let sector = pow2(record.log2_sec_size as nat) as int;
    lemma_pow2_pos(record.log2_bytes_per_mapbit as nat);
    let (zone, mapped) = choose|zone: int, mapped: nat|
        {
            &&& #[trigger] goes_into(record.num_zones as int, record.size as int, zone)
            &&& goes_into(
                unit,
                if includes_map {
                    zone - record.num_zones * sector
                } else {
                    zone
                },
                mapped as int,
            )
            &&& #[trigger] take_bits(list, mapped)
        };
    law_mapped_units(includes_map, link, record);
    lemma_quotient(record.num_zones as int, record.size as int, zone, other.zone_size as int);
    let taken = if includes_map {
        record.num_zones * sector
    } else {
        0
    };
    lemma_quotient(
        unit,
        zone - taken,
        mapped as int,
        other.mapped_space_in_alloc_units as int,
    );
    assert(params.mapped_space_in_alloc_units == other.mapped_space_in_alloc_units);
    flat_map::lemma_for_zone(includes_map, link, disc);
    flat_map::lemma_shift_fits(params.log_bytes_per_alloc);
    lemma_listed(s, 8 * map_start, list, mapped, params);
    lemma_lengths(s, 8 * map_start, record.idlen as nat, list);
    let read = blocks_at(s, 8 * map_start, mapped, params)->Ok_0.0;
    assert forall|i: int| !#[trigger] Seq::<int>::empty().contains(i) by {}
    assert(are_listed(read, map_start, list, unit, Seq::empty()));
    if link > 0 {
        lemma_listed_free(read, zone_start, map_start, list, unit, link, free);
    } else {
        assert(free =~= Seq::empty());
    }
    let (allocations, map_end) = map_at(s, map_start, zone_start, params)->Ok_0;
    lemma_bits_of(list, 0, list.len() as int);
    law_rest_of_sector(map_end, record.log2_sec_size as nat);
}

/// The list of the fragments of a disc is what was written at the beginning of its image,
/// whether or not the fragments of its objects can be put in order.
pub proof fn law_flat_map(image: Seq<u8>, link: u16, list: Seq<(int, int)>, free: Seq<int>)
    requires
        64 <= image.len(),
        bits_fit(image.len()),
        link < 32768,
        spells(image, 1, 2, link as int) || spells(image, 1, 2, 32768 + link),
        record_failure(image, 4) is None,
        record_at(image, 4).can_be_mapped(true),
        is_written(image, 64, 0, record_at(image, 4), true, link, list, free),
    ensures
        ({
            let record = record_at(image, 4);
            let unit = pow2(record.log2_bytes_per_mapbit as nat) as int;
            let sector = pow2(record.log2_sec_size as nat) as int;
            let last = begins_at(64, list, list.len() as int);
            let found = leading_block_at(image, 0, true);
            &&& last + 8 * sector <= 8 * image.len() ==> found is Ok
            &&& found matches Err(e) ==> e == LoadFailure::Truncated
            &&& found matches Ok((block, end)) ==> (flat_map::loaded(image) matches Ok(loaded)
                && loaded == block)
            &&& found matches Ok((block, end)) ==> {
                &&& block.header.free_link == link
                &&& block.header.zone_check == image[0]
                &&& block.header.cross_check == image[3]
                &&& block.disc_record == flat_map::record_at(image, 4)
                &&& are_listed(block.allocations, 64, list, unit, free)
                &&& last <= 8 * end < last + 8 + 8 * sector
                &&& end <= image.len()
                &&& exists|n: int| end == #[trigger] (n * sector)
                &&& exists|from: int|
                    last <= 8 * from < last + 8 && block.unused
                        == #[trigger] image.subrange(from, end)
            }
        }),
{
    law_header(image, 0, link as int);
    law_same_record(image, 4);
    law_flat_zone(
        image,
        64,
        0,
        header_at(image, 0),
        record_at(image, 4),
        flat_map::record_at(image, 4),
        true,
        link,
        list,
        free,
    );
}

/// The list of the fragments of a zone can be read for the same discs as its map.
pub proof fn law_same_geometry(
    record: record::DiscRecord,
    disc: flat_map::DiscRecord,
    includes_map: bool,
)
    requires
        disc.log2_sec_size == record.log2_sec_size,
        disc.log2_bytes_per_mapbit == record.log2_bytes_per_mapbit,
        disc.num_zones == record.num_zones,
        disc.size == record.size,
    ensures
        disc.can_be_read(includes_map) <==> record.can_be_mapped(includes_map),
        disc.sector_bytes() == record.sector_size(),
        disc.num_zones > 0 ==> disc.zone_bytes() == record.zone_size(),
{
}

/// What is wrong with a list of fragments that is not even begun: there are not enough bytes
/// for its record, sectors have a size that no disc has, or its zones cannot exist.
pub proof fn law_flat_bad_record(image: Seq<u8>)
    ensures
        image.len() < 4 ==> refuses_list(image, LoadFailure::Truncated),
        4 < image.len() && image[4] != 8 && image[4] != 9 && image[4] != 10 ==> refuses_list(
            image,
            LoadFailure::Mismatch,
        ),
        4 <= image.len() < 64 && (4 < image.len() ==> 8 <= image[4] <= 10) ==> refuses_list(
            image,
            LoadFailure::Truncated,
        ),
        64 <= image.len() && 8 <= image[4] <= 10 && !record_at(image, 4).can_be_mapped(true)
            ==> refuses_list(image, LoadFailure::Defect(Defect::Geometry)),
{
    if 64 <= image.len() {
        law_same_record(image, 4);
        law_same_geometry(record_at(image, 4), flat_map::record_at(image, 4), true);
    }
}

/// Whether the list of the fragments of a disc is refused.
pub open spec fn refuses_list(image: Seq<u8>, failure: LoadFailure) -> bool {
    flat_map::loaded(image) matches Err(e) && e == failure
}

/// Where no fragment begins where the list of free ones should, the link is reported.
pub proof fn law_bad_link(blocks: Seq<FragmentBlock>, zone_start: int, link: u16)
    requires
        0 <= zone_start,
        8 * zone_start + 8 + link <= usize::MAX,
        forall|i: int|
            0 <= i < blocks.len() ==> (#[trigger] blocks[i]).position.0 != 8 * zone_start + 8
                + link,
    ensures
        walked(blocks, zone_start, link) == (blocks, Some(LoadErrors::InvalidFreeLink(link))),
{
    let head = (8 * zone_start + 8 + link) as usize;
    assert forall|i: int| !flat_map::begins_at(blocks, i, head) by {}
}

} // verus!
