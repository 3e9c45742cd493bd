//! The map of a disc as a whole, and the parts that it gives to objects.

use std::ops::Range;

use vstd::arithmetic::power2::*;
use vstd::prelude::*;

use super::blocks::{
    are_fragments, are_free, begins_at, holds_blocks, law_fragments, take_bits,
};
use super::files::is_block_for;
use super::geometry::{
    comes_first, goes_into, law_mapped_units, law_rest_of_sector, law_search,
};
use super::numbers::spells;
use super::records::law_header;
use crate::new_map::allocation::{
    belongs_to, first_block, fragments_at, is_region_of, lemma_map_lists_objects, lists_regions,
    map_at, one_part_each, FragmentBlock,
};
use crate::new_map::disc_structures::{
    first_in_blocks, format_e_map, lemma_one_zone, map_block_at, parts_of, MapBlockView,
    NewMapView,
};
use crate::new_map::record::{
    lemma_for_zone, record_at, record_failure, AllocationParsingParams, DiscRecord,
};
use crate::new_map::util::{bits_fit, FragmentId};
use crate::new_map::{CauseView, Defect};

verus! {

/// Whether a zone of a disc has the list of blocks written at byte `map_start`: the blocks
/// take as many bits as units are mapped.
pub open spec fn is_laid_out(
    s: Seq<u8>,
    map_start: int,
    record: DiscRecord,
    includes_map: bool,
    list: Seq<(int, int)>,
) -> bool {
    let unit = pow2(record.log2_bytes_per_mapbit as nat) as int;
    let sector = pow2(record.log2_sec_size as nat) as int;
    &&& record.idlen <= 16
    &&& holds_blocks(s, 8 * map_start, record.idlen as nat, list)
    &&& exists|zone: int, mapped: nat|
        {
            &&& #[trigger] goes_into(record.num_zones as int, record.size as int, zone)
            &&& goes_into(
                unit,
                if includes_map {
                    zone - record.num_zones * sector
                } else {
                    zone
                },
                mapped as int,
            )
            &&& #[trigger] take_bits(list, mapped)
        }
    &&& (begins_at(map_start, list, list.len() as int) - 512) * unit <= usize::MAX
}

/// Whether a zone of a disc has the list of blocks written at byte `map_start`, with the free
/// ones among them.
pub open spec fn is_written(
    s: Seq<u8>,
    map_start: int,
    zone_start: int,
    record: DiscRecord,
    includes_map: bool,
    link: u16,
    list: Seq<(int, int)>,
    free: Seq<int>,
) -> bool {
    &&& is_laid_out(s, map_start, record, includes_map, list)
    &&& are_free(zone_start, map_start, list, link, free)
}

/// Whether the fragments of every object can be put in order: no two of the blocks that are
/// not free have one number, or there is a disc to go around and every object has a home.
pub open spec fn has_order(record: DiscRecord, list: Seq<(int, int)>, free: Seq<int>) -> bool {
    ||| record.size > 0 && record.zone_is_countable() && record.objects_per_zone() > 0
    ||| forall|i: int, j: int|
        0 <= i < j < list.len() && !free.contains(i) && !free.contains(j) ==> (
        #[trigger] list[i]).0 != (#[trigger] list[j]).0
}

pub proof fn lemma_quotient(each: int, all: int, a: int, b: int)
    requires
        each > 0,
        goes_into(each, all, a),
        goes_into(each, all, b),
    ensures
        a == b,
{
    assert(a <= b) by (nonlinear_arith)
        requires
            a * each <= all,
            all < (b + 1) * each,
            each > 0,
    ;
    assert(b <= a) by (nonlinear_arith)
        requires
            b * each <= all,
            all < (a + 1) * each,
            each > 0,
    ;
}

proof fn lemma_one_part(
    fragments: Map<usize, FragmentBlock>,
    map_start: int,
    list: Seq<(int, int)>,
    unit: int,
    free: Seq<int>,
)
    requires
        are_fragments(fragments, map_start, list, unit, free),
        forall|k: int| 0 <= k < list.len() ==> (#[trigger] list[k]).1 > 0,
    ensures
        one_part_each(fragments) <==> forall|i: int, j: int|
            0 <= i < j < list.len() && !free.contains(i) && !free.contains(j) ==> (
            #[trigger] list[i]).0 != (#[trigger] list[j]).0,
{
    if one_part_each(fragments) {
        assert forall|i: int, j: int|
            0 <= i < j < list.len() && !free.contains(i) && !free.contains(j) implies (
        #[trigger] list[i]).0 != (#[trigger] list[j]).0 by {
            let (a, b) = (begins_at(map_start, list, i), begins_at(map_start, list, j));
            super::blocks::lemma_bits_of(list, i, j);
            let id = fragments[a as usize].id;
            if list[i].0 == list[j].0 {
                assert(belongs_to(fragments, a as usize, id));
                assert(belongs_to(fragments, b as usize, id));
            }
        }
    }
    if forall|i: int, j: int|
        0 <= i < j < list.len() && !free.contains(i) && !free.contains(j) ==> (
        #[trigger] list[i]).0 != (#[trigger] list[j]).0 {
        assert forall|a: usize, b: usize, id: FragmentId| #[trigger]
            belongs_to(fragments, a, id) && #[trigger] belongs_to(
                fragments,
                b,
                id,
            ) implies a == b by {
            let i = choose|i: int|
                0 <= i < list.len() && a == #[trigger] begins_at(map_start, list, i);
            let j = choose|j: int|
                0 <= j < list.len() && b == #[trigger] begins_at(map_start, list, j);
            if i < j {
                assert(list[i].0 == list[j].0);
            } else if j < i {
                assert(list[j].0 == list[i].0);
            }
        }
    }
}

/// A zone is read as it was written.
proof fn lemma_zone(
    s: Seq<u8>,
    map_start: int,
    zone_start: int,
    record: DiscRecord,
    includes_map: bool,
    link: u16,
    list: Seq<(int, int)>,
    free: Seq<int>,
)
    requires
        64 <= map_start,
        0 <= zone_start,
        bits_fit(s.len()),
        record.can_be_mapped(includes_map),
        is_written(s, map_start, zone_start, record, includes_map, link, list, free),
    ensures
        ({
            let params = AllocationParsingParams::for_zone(includes_map, link, record);
            let last = begins_at(map_start, list, list.len() as int);
            let unit = pow2(record.log2_bytes_per_mapbit as nat) as int;
            &&& map_at(s, map_start, zone_start, params) is Ok <==> has_order(record, list, free)
            &&& map_at(s, map_start, zone_start, params) matches Err(cause) ==> cause
                == CauseView::Defect(Defect::Geometry)
            &&& map_at(s, map_start, zone_start, params) matches Ok((map, end)) ==> {
                &&& are_fragments(map.fragments, map_start, list, unit, free)
                &&& last <= 8 * end < last + 8
            }
        }),
{
    let params = AllocationParsingParams::for_zone(includes_map, link, record);
    let unit = pow2(record.log2_bytes_per_mapbit as nat) as int;
    let sector = pow2(record.log2_sec_size as nat) as int;
    lemma_pow2_pos(record.log2_bytes_per_mapbit as nat);
    let (zone, mapped) = choose|zone: int, mapped: nat|
        {
            &&& #[trigger] goes_into(record.num_zones as int, record.size as int, zone)
            &&& goes_into(
                unit,
                if includes_map {
                    zone - record.num_zones * sector
                } else {
                    zone
                },
                mapped as int,
            )
            &&& #[trigger] take_bits(list, mapped)
        };
    law_mapped_units(includes_map, link, record);
    lemma_for_zone(includes_map, link, record);
    lemma_quotient(record.num_zones as int, record.size as int, zone, params.zone_size as int);
    let taken = if includes_map {
        record.num_zones * sector
    } else {
        0
    };
    lemma_quotient(
        unit,
        zone - taken,
        mapped as int,
        params.mapped_space_in_alloc_units as int,
    );
    law_fragments(s, map_start, zone_start, list, free, params);
    super::blocks::lemma_lengths(s, 8 * map_start, record.idlen as nat, list);
    let fragments = fragments_at(s, map_start, zone_start, params)->Ok_0.0;
    lemma_one_part(fragments, map_start, list, unit, free);
    if record.zone_is_countable() {
        super::geometry::law_objects_per_zone(record);
    }
}

/// The map of a format E disc is what was written at the beginning of its image: a header of
/// four bytes with the link to its free space, a record of sixty bytes, and the blocks. It is
/// followed by the rest of its last sector.
pub proof fn law_map(image: Seq<u8>, link: u16, list: Seq<(int, int)>, free: Seq<int>)
    requires
        64 <= image.len(),
        bits_fit(image.len()),
        link < 32768,
        spells(image, 1, 2, link as int) || spells(image, 1, 2, 32768 + link),
        record_failure(image, 4) is None,
        record_at(image, 4).can_be_mapped(true),
        is_written(image, 64, 0, record_at(image, 4), true, link, list, free),
    ensures
        ({
            let record = record_at(image, 4);
            let unit = pow2(record.log2_bytes_per_mapbit as nat) as int;
            let sector = pow2(record.log2_sec_size as nat) as int;
            let last = begins_at(64, list, list.len() as int);
            &&& format_e_map(image, 0) is Ok ==> has_order(record, list, free)
            &&& has_order(record, list, free) && last + 8 * sector <= 8 * image.len()
                ==> format_e_map(image, 0) is Ok
            &&& format_e_map(image, 0) matches Err(cause) ==> cause == if has_order(
                record,
                list,
                free,
            ) {
                CauseView::Truncated
            } else {
                CauseView::Defect(Defect::Geometry)
            }
            &&& format_e_map(image, 0) matches Ok((map, end)) ==> {
                &&& map.blocks.len() == 0
                &&& map.leading_block.header.free_link == link
                &&& map.leading_block.header.zone_check == image[0]
                &&& map.leading_block.header.cross_check == image[3]
                &&& map.leading_block.disc_record == record
                &&& are_fragments(map.leading_block.allocations.fragments, 64, list, unit, free)
                &&& last <= 8 * end < last + 8 + 8 * sector
                &&& end <= image.len()
                &&& exists|n: int| end == #[trigger] (n * sector)
                &&& exists|from: int|
                    last <= 8 * from < last + 8 && map.leading_block.unused
                        == #[trigger] image.subrange(from, end)
            }
        }),
{
    let record = record_at(image, 4);
    law_header(image, 0, link as int);
    let params = AllocationParsingParams::for_zone(true, link, record);
    lemma_zone(image, 64, 0, record, true, link, list, free);
    if let Ok((allocations, map_end)) = map_at(image, 64, 0, params) {
        law_rest_of_sector(map_end, record.log2_sec_size as nat);
    }
}

/// The map of a further zone is what was written where it begins: a header of four bytes, and
/// the blocks.
pub proof fn law_further_zone(
    s: Seq<u8>,
    p: int,
    record: DiscRecord,
    includes_map: bool,
    link: u16,
    list: Seq<(int, int)>,
    free: Seq<int>,
)
    requires
        60 <= p,
        p + 4 <= s.len(),
        bits_fit(s.len()),
        link < 32768,
        spells(s, p + 1, 2, link as int) || spells(s, p + 1, 2, 32768 + link),
        record.can_be_mapped(includes_map),
        is_written(s, p + 4, p, record, includes_map, link, list, free),
    ensures
        ({
            let unit = pow2(record.log2_bytes_per_mapbit as nat) as int;
            let sector = pow2(record.log2_sec_size as nat) as int;
            let last = begins_at(p + 4, list, list.len() as int);
            &&& map_block_at(s, p, includes_map, record) is Ok ==> has_order(record, list, free)
            &&& has_order(record, list, free) && last + 8 * sector <= 8 * s.len()
                ==> map_block_at(s, p, includes_map, record) is Ok
            &&& map_block_at(s, p, includes_map, record) matches Err(cause) ==> cause
                == if has_order(record, list, free) {
                CauseView::Truncated
            } else {
                CauseView::Defect(Defect::Geometry)
            }
            &&& map_block_at(s, p, includes_map, record) matches Ok((block, end)) ==> {
                &&& block.header.free_link == link
                &&& block.header.zone_check == s[p]
                &&& block.header.cross_check == s[p + 3]
                &&& are_fragments(block.allocations.fragments, p + 4, list, unit, free)
                &&& last <= 8 * end < last + 8 + 8 * sector
                &&& end <= s.len()
                &&& exists|n: int| end == #[trigger] (n * sector)
                &&& exists|from: int|
                    last <= 8 * from < last + 8 && block.unused == #[trigger] s.subrange(from, end)
            }
        }),
{
    law_header(s, p, link as int);
    let params = AllocationParsingParams::for_zone(includes_map, link, record);
    lemma_zone(s, p + 4, p, record, includes_map, link, list, free);
    if let Ok((allocations, map_end)) = map_at(s, p + 4, p, params) {
        law_rest_of_sector(map_end, record.log2_sec_size as nat);
    }
}

/// Whether the block at `k` is one of the fragments of an object.
pub open spec fn is_part(blocks: Map<usize, FragmentBlock>, k: usize, id: int) -> bool {
    blocks.contains_key(k) && blocks[k].id == id && !blocks[k].free_space
}

/// Whether some fragment of an object lies in a region.
pub open spec fn has_part(
    blocks: Map<usize, FragmentBlock>,
    region: Range<usize>,
    id: int,
) -> bool {
    exists|k: usize| #[trigger] is_part(blocks, k, id) && blocks[k].disk_region == region
}

/// The parts of an object on a format E disc are the regions of its fragments, all of them
/// and no others. They come in the order in which a search meets them that begins at byte
/// `home`, where the zone of the object begins.
pub proof fn law_parts(image: Seq<u8>, id: FragmentId, zone: int, turns: int, home: int)
    requires
        bits_fit(image.len()),
        format_e_map(image, 0) is Ok,
    ensures
        ({
            let map = format_e_map(image, 0)->Ok_0.0;
            let blocks = map.leading_block.allocations.fragments;
            let record = map.leading_block.disc_record;
            let parts = map.object_parts(id);
            &&& forall|i: int|
                0 <= i < parts.len() ==> has_part(blocks, #[trigger] parts[i], id as int)
            &&& forall|k: usize| #[trigger]
                is_part(blocks, k, id as int) ==> parts.contains(blocks[k].disk_region)
            &&& record.zone_is_countable() && record.objects_per_zone() > 0 && goes_into(
                record.objects_per_zone(),
                id as int,
                zone,
            ) && zone * record.zone_size() == turns * record.size + home && 0 <= home < record.size
                ==> forall|i: int, j: int|
                #![trigger parts[i], parts[j]]
                0 <= i < j < parts.len() && parts[i].start < record.size && parts[j].start
                    < record.size ==> comes_first(
                    home,
                    parts[i].start as int,
                    parts[j].start as int,
                )
        }),
{
    let map = format_e_map(image, 0)->Ok_0.0;
    let blocks = map.leading_block.allocations.fragments;
    let record = map.leading_block.disc_record;
    let link = map.leading_block.header.free_link;
    let params = AllocationParsingParams::for_zone(true, link, record);
    let parts = map.object_parts(id);
    lemma_one_zone(map, id);
    lemma_map_lists_objects(image, 64, 0, params, id);
    law_mapped_units(true, link, record);
    lemma_for_zone(true, link, record);
    if map.leading_block.allocations.object_regions.contains_key(id) {
        assert(lists_regions(parts, blocks, id, params));
        assert forall|i: int| 0 <= i < parts.len() implies has_part(
            blocks,
            #[trigger] parts[i],
            id as int,
        ) by {
            assert(parts.contains(parts[i]));
            assert(is_region_of(blocks, parts[i], id));
            let k = choose|k: usize| #[trigger]
                belongs_to(blocks, k, id) && blocks[k].disk_region == parts[i];
            assert(is_part(blocks, k, id as int));
        }
        assert forall|k: usize| #[trigger] is_part(blocks, k, id as int) implies parts.contains(
            blocks[k].disk_region,
        ) by {
            assert(belongs_to(blocks, k, id));
            assert(is_region_of(blocks, blocks[k].disk_region, id));
        }
        if record.zone_is_countable() && record.objects_per_zone() > 0 && goes_into(
            record.objects_per_zone(),
            id as int,
            zone,
        ) && zone * record.zone_size() == turns * record.size + home && 0 <= home < record.size {
            assert forall|i: int, j: int|
                #![trigger parts[i], parts[j]]
                0 <= i < j < parts.len() && parts[i].start < record.size && parts[j].start
                    < record.size implies comes_first(
                home,
                parts[i].start as int,
                parts[j].start as int,
            ) by {
                law_search(params, id, zone, turns, home, parts[i], parts[j]);
            }
        }
    } else {
        assert forall|k: usize| !#[trigger] is_part(blocks, k, id as int) by {
            if is_part(blocks, k, id as int) {
                assert(belongs_to(blocks, k, id));
            }
        }
    }
}

/// A file lies in the parts of its object, or, where only free space has its number, in the
/// first block of that.
pub proof fn law_file_parts(map: NewMapView, id: FragmentId)
    ensures
        map.object_parts(id).len() > 0 ==> map.file_parts(id) == map.object_parts(id),
        map.object_parts(id).len() == 0 && map.blocks.len() == 0 ==> {
            let blocks = map.leading_block.allocations.fragments;
            forall|k: usize| #[trigger]
                is_block_for(blocks, k, id as int) ==> map.file_parts(id)
                    == seq![blocks[k].disk_region]
        },
        map.fragment(id) is None && map.object_parts(id).len() == 0 ==> map.file_parts(id).len()
            == 0,
{
    super::files::law_first_block(map.leading_block.allocations.fragments, id);
}

/// Whether `home` is the zone that an object has its home in: the zones take turns, each with
/// as many objects as it has room for.
pub open spec fn is_home(map: NewMapView, id: int, home: int) -> bool {
    &&& 0 <= home < map.blocks.len() + 1
    &&& exists|n: int|
        goes_into(
            map.leading_block.disc_record.objects_per_zone(),
            id,
            #[trigger] (n * (map.blocks.len() + 1)) + home,
        )
}

/// An object has the parts that the zones give to it, first those of its home, then those of
/// the zones behind it, and then those of the zones before it.
pub proof fn law_parts_of_zones(map: NewMapView, id: FragmentId, home: int)
    requires
        map.leading_block.disc_record.zone_is_countable(),
        map.leading_block.disc_record.objects_per_zone() > 0,
        is_home(map, id as int, home),
    ensures
        ({
            let zones = map.blocks.len() + 1;
            map.object_parts(id) == Seq::new(
                zones as nat,
                |j: int|
                    {
                        let z = if home + j < zones {
                            home + j
                        } else {
                            home + j - zones
                        };
                        if z == 0 {
                            parts_of(map.leading_block.allocations, id)
                        } else {
                            parts_of(map.blocks[z - 1].allocations, id)
                        }
                    },
            ).flatten()
        }),
{
    let zones = (map.blocks.len() + 1) as int;
    let each = map.leading_block.disc_record.objects_per_zone();
    let n = choose|n: int| goes_into(each, id as int, #[trigger] (n * zones) + home);
    let q = n * zones + home;
    let rest = id - q * each;
    assert(0 <= rest < each) by (nonlinear_arith)
        requires
            rest == id - q * each,
            q * each <= id < (q + 1) * each,
    ;
    vstd::arithmetic::div_mod::lemma_fundamental_div_mod_converse(id as int, each, q, rest);
    vstd::arithmetic::div_mod::lemma_fundamental_div_mod_converse(q, zones, n, home);
    assert(map.home_zone(id) == home);
    let each_zone = Seq::new(
        zones as nat,
        |j: int|
            {
                let z = if home + j < zones {
                    home + j
                } else {
                    home + j - zones
                };
                if z == 0 {
                    parts_of(map.leading_block.allocations, id)
                } else {
                    parts_of(map.blocks[z - 1].allocations, id)
                }
            },
    );
    lemma_zones_joined(map, id, home, zones as nat, each_zone);
    assert(each_zone.take(zones) =~= each_zone);
}

/// Where objects have no home, they have the parts that the zones give to them, from the
/// first zone to the last.
pub proof fn law_parts_without_home(map: NewMapView, id: FragmentId)
    requires
        !map.leading_block.disc_record.zone_is_countable()
            || map.leading_block.disc_record.objects_per_zone() <= 0,
    ensures
        map.object_parts(id) == Seq::new(
            (map.blocks.len() + 1) as nat,
            |z: int|
                if z == 0 {
                    parts_of(map.leading_block.allocations, id)
                } else {
                    parts_of(map.blocks[z - 1].allocations, id)
                },
        ).flatten(),
{
    let zones = (map.blocks.len() + 1) as int;
    let each_zone = Seq::new(
        zones as nat,
        |z: int|
            if z == 0 {
                parts_of(map.leading_block.allocations, id)
            } else {
                parts_of(map.blocks[z - 1].allocations, id)
            },
    );
    lemma_zones_joined(map, id, 0, zones as nat, each_zone);
    assert(each_zone.take(zones) =~= each_zone);
}

proof fn lemma_zones_joined(
    map: NewMapView,
    id: FragmentId,
    home: int,
    n: nat,
    each_zone: Seq<Seq<Range<usize>>>,
)
    requires
        0 <= home < map.blocks.len() + 1,
        n <= map.blocks.len() + 1,
        each_zone.len() == map.blocks.len() + 1,
        forall|j: int|
            #![trigger each_zone[j]]
            0 <= j < each_zone.len() ==> {
                let zones = map.blocks.len() + 1;
                let z = if home + j < zones {
                    home + j
                } else {
                    home + j - zones
                };
                each_zone[j] == if z == 0 {
                    parts_of(map.leading_block.allocations, id)
                } else {
                    parts_of(map.blocks[z - 1].allocations, id)
                }
            },
    ensures
        map.parts_in_zones(id, home, n) == each_zone.take(n as int).flatten(),
    decreases n,
{
    let zones = (map.blocks.len() + 1) as int;
    if n > 0 {
        let m = (n - 1) as nat;
        lemma_zones_joined(map, id, home, m, each_zone);
        let before = each_zone.take(m as int);
        assert(each_zone.take(n as int) =~= before.push(each_zone[m as int]));
        before.lemma_flatten_push(each_zone[m as int]);
        let at = home + m;
        if at < zones {
            vstd::arithmetic::div_mod::lemma_small_mod(at as nat, zones as nat);
        } else {
            vstd::arithmetic::div_mod::lemma_fundamental_div_mod_converse(
                at,
                zones,
                1,
                at - zones,
            );
        }
        assert((home + n - 1) % zones == if at < zones {
            at
        } else {
            at - zones
        });
    } else {
        assert(each_zone.take(0) =~= Seq::empty());
        assert(Seq::<Seq<Range<usize>>>::empty().flatten() =~= Seq::empty());
    }
}

/// The block for a number is that of the first zone in which some block has the number.
pub proof fn law_block_of_first_zone(map: NewMapView, id: FragmentId, z: int)
    requires
        0 <= z <= map.blocks.len(),
        forall|y: int| 0 <= y < z ==> first_block((#[trigger] map.zone(y)).fragments, id) is None,
        first_block(map.zone(z).fragments, id) is Some,
    ensures
        map.fragment(id) == first_block(map.zone(z).fragments, id),
        z == 0 ==> map.zone(z) == map.leading_block.allocations,
        z > 0 ==> map.zone(z) == map.blocks[z - 1].allocations,
{
    if z > 0 {
        assert(first_block(map.zone(0).fragments, id) is None);
        assert forall|i: int| 0 <= i < z - 1 implies first_block(
            (#[trigger] map.blocks[i]).allocations.fragments,
            id,
        ) is None by {
            assert(first_block(map.zone(i + 1).fragments, id) is None);
        }
        lemma_first_in_zones(map.blocks, id, z - 1);
    }
}

proof fn lemma_first_in_zones(blocks: Seq<MapBlockView>, id: FragmentId, z: int)
    requires
        0 <= z < blocks.len(),
        forall|i: int|
            0 <= i < z ==> first_block(
                (#[trigger] blocks[i]).allocations.fragments,
                id,
            ) is None,
        first_block(blocks[z].allocations.fragments, id) is Some,
    ensures
        first_in_blocks(blocks, id) == first_block(blocks[z].allocations.fragments, id),
    decreases blocks.len(),
{
    let before = blocks.drop_last();
    if z < blocks.len() - 1 {
        lemma_first_in_zones(before, id, z);
    } else {
        lemma_none_in_zones(before, id);
    }
}

proof fn lemma_none_in_zones(blocks: Seq<MapBlockView>, id: FragmentId)
    requires
        forall|i: int|
            0 <= i < blocks.len() ==> first_block(
                (#[trigger] blocks[i]).allocations.fragments,
                id,
            ) is None,
    ensures
        first_in_blocks(blocks, id) is None,
    decreases blocks.len(),
{
    if blocks.len() > 0 {
        lemma_none_in_zones(blocks.drop_last(), id);
        assert(blocks.last() == blocks[blocks.len() - 1]);
    }
}

} // verus!
