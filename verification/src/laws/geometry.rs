//! The sizes of a disc and its parts, and the order in which a search goes through them.

use std::ops::Range;

use vstd::arithmetic::div_mod::*;
use vstd::arithmetic::power2::*;
use vstd::prelude::*;

use crate::new_map::allocation::met_before;
use crate::new_map::record::{lemma_for_zone, AllocationParsingParams, DiscRecord};
use crate::new_map::util::{bits_fit, sector_end, FragmentId};

verus! {

/// Whether `n` is how many times `each` goes into `all`.
pub open spec fn goes_into(each: int, all: int, n: int) -> bool {
    n * each <= all < (n + 1) * each
}

proof fn lemma_goes_into(each: int, all: int)
    requires
        each > 0,
    ensures
        goes_into(each, all, all / each),
{
    let n = all / each;
    lemma_fundamental_div_mod(all, each);
    assert(n * each <= all < (n + 1) * each) by (nonlinear_arith)
        requires
            all == each * n + all % each,
            0 <= all % each < each,
    ;
}

/// The zones of a disc have one size, as large as the disc has room for.
pub proof fn law_zone_size(record: DiscRecord)
    requires
        record.num_zones > 0,
    ensures
        goes_into(record.num_zones as int, record.size as int, record.zone_size()),
{
    lemma_goes_into(record.num_zones as int, record.size as int);
}

/// As many objects have their home in a zone as the bits of a sector have room for, where
/// some bits are spare and each object takes one bit more than its number has. They are
/// counted where no more bits are spare than there are.
pub proof fn law_objects_per_zone(record: DiscRecord)
    ensures
        ({
            let bits = 8 * pow2(record.log2_sec_size as nat);
            &&& record.zone_is_countable() <==> bits <= usize::MAX && record.zone_spare <= bits
            &&& goes_into(
                record.idlen + 1,
                bits - record.zone_spare,
                record.objects_per_zone(),
            )
        }),
{
    lemma2_to64();
    lemma_pow2_adds(record.log2_sec_size as nat, 3);
    let bits = pow2((record.log2_sec_size + 3) as nat);
    assert(bits == 8 * pow2(record.log2_sec_size as nat)) by (nonlinear_arith)
        requires
            bits == pow2(record.log2_sec_size as nat) * 8,
    ;
    lemma_goes_into(record.idlen + 1, bits - record.zone_spare);
}

/// A zone can be mapped where there are zones, a sector of the map for each of them fits
/// into each of them if it has to, and sizes can be counted.
pub proof fn law_geometry(record: DiscRecord, includes_map: bool)
    ensures
        record.can_be_mapped(includes_map) <==> {
            let zones = record.num_zones as int;
            let sector = pow2(record.log2_sec_size as nat) as int;
            &&& zones > 0
            &&& sector < 4294967296
            &&& includes_map ==> zones * (zones * sector) <= record.size
            &&& pow2(record.log2_bytes_per_mapbit as nat) <= usize::MAX
        },
{
    let zones = record.num_zones as int;
    let sector = pow2(record.log2_sec_size as nat) as int;
    let n = record.log2_sec_size as nat;
    lemma2_to64();
    if n < 32 {
        lemma_pow2_strictly_increases(n, 32);
    }
    if n > 32 {
        lemma_pow2_strictly_increases(32, n);
    }
    if zones > 0 {
        law_zone_size(record);
        let taken = zones * sector;
        let zone = record.zone_size();
        let size = record.size as int;
        if taken <= zone {
            assert(zones * taken <= size) by (nonlinear_arith)
                requires
                    taken <= zone,
                    zone * zones <= size,
                    zones > 0,
            ;
        } else {
            assert(zones * taken > size) by (nonlinear_arith)
                requires
                    taken >= zone + 1,
                    size < (zone + 1) * zones,
                    zones > 0,
            ;
        }
    }
}

/// The map of a zone has a bit for each unit of the zone, without those that the map itself
/// takes where it lies in the zone: a sector for each zone.
pub proof fn law_mapped_units(includes_map: bool, link: u16, record: DiscRecord)
    requires
        record.can_be_mapped(includes_map),
    ensures
        ({
            let params = AllocationParsingParams::for_zone(includes_map, link, record);
            let sector = pow2(record.log2_sec_size as nat) as int;
            let taken = if includes_map {
                record.num_zones * sector
            } else {
                0
            };
            &&& goes_into(
                pow2(record.log2_bytes_per_mapbit as nat) as int,
                params.zone_size - taken,
                params.mapped_space_in_alloc_units as int,
            )
            &&& goes_into(
                record.num_zones as int,
                record.size as int,
                params.zone_size as int,
            )
            &&& params.fragment_id_length == record.idlen
            &&& params.log_bytes_per_alloc == record.log2_bytes_per_mapbit
            &&& params.sector_size == sector
            &&& params.free_link == link
            &&& params.total_disk_size == record.size
            &&& record.zone_is_countable() ==> params.ids_per_zone == record.objects_per_zone()
            &&& !record.zone_is_countable() ==> params.ids_per_zone == 0
        }),
{
    lemma_for_zone(includes_map, link, record);
    law_zone_size(record);
    let params = AllocationParsingParams::for_zone(includes_map, link, record);
    let sector = pow2(record.log2_sec_size as nat) as int;
    let taken = if includes_map {
        record.num_zones * sector
    } else {
        0
    };
    lemma_pow2_pos(record.log2_bytes_per_mapbit as nat);
    lemma_goes_into(
        pow2(record.log2_bytes_per_mapbit as nat) as int,
        params.zone_size - taken,
    );
}

/// Whether a search that begins at byte `home` of a disc comes to byte `a` before it comes to
/// byte `b`: it goes on to the end of the disc, and then from its beginning up to where it
/// began.
pub open spec fn comes_first(home: int, a: int, b: int) -> bool {
    if a >= home {
        b < home || a < b
    } else {
        b < home && a < b
    }
}

/// The fragments of an object are met in the order in which a search comes to them that
/// begins at byte `home`, where the zone begins that the object has its home in; zones are
/// counted around the end of the disc as often as it takes.
pub proof fn law_search(
    params: AllocationParsingParams,
    id: FragmentId,
    zone: int,
    turns: int,
    home: int,
    a: Range<usize>,
    b: Range<usize>,
)
    requires
        params.ids_per_zone > 0,
        goes_into(params.ids_per_zone as int, id as int, zone),
        zone * params.zone_size == turns * params.total_disk_size + home,
        0 <= home < params.total_disk_size,
        a.start < params.total_disk_size,
        b.start < params.total_disk_size,
    ensures
        met_before(a, b, id, params) <==> comes_first(
            home,
            a.start as int,
            b.start as int,
        ),
{
    let each = params.ids_per_zone as int;
    let rest = id - zone * each;
    assert(id == zone * each + rest);
    assert(0 <= rest < each) by (nonlinear_arith)
        requires
            rest == id - zone * each,
            zone * each <= id < (zone + 1) * each,
    ;
    lemma_fundamental_div_mod_converse(id as int, each, zone, rest);
    let total = params.total_disk_size as int;
    lemma_around(a.start - home, total);
    lemma_around(b.start - home, total);
    lemma_turns(a.start - home, turns, total);
    lemma_turns(b.start - home, turns, total);
}

proof fn lemma_turns(d: int, turns: int, total: int)
    requires
        total > 0,
    ensures
        (d - turns * total) % total == d % total,
{
    lemma_mod_multiples_vanish(-turns, d, total);
    assert(d - turns * total == total * (-turns) + d) by (nonlinear_arith);
}

/// Of two fragments that the search comes to at the same place, on different turns around the
/// disc, the one that begins first is met first.
pub proof fn law_search_beyond_the_end(
    params: AllocationParsingParams,
    id: FragmentId,
    turns: int,
    a: Range<usize>,
    b: Range<usize>,
)
    requires
        params.total_disk_size > 0,
        turns > 0,
        b.start == a.start + turns * params.total_disk_size,
    ensures
        met_before(a, b, id, params),
        !met_before(b, a, id, params),
{
    let total = params.total_disk_size as int;
    let d = a.start - params.search_start(id);
    lemma_turns(d, -turns, total);
    assert(d - (-turns) * total == b.start - params.search_start(id)) by (nonlinear_arith)
        requires
            d == a.start - params.search_start(id),
            b.start == a.start + turns * total,
    ;
    assert(turns * total > 0) by (nonlinear_arith)
        requires
            turns > 0,
            total > 0,
    ;
}

proof fn lemma_around(d: int, total: int)
    requires
        -total < d < total,
    ensures
        d % total == if d >= 0 {
            d
        } else {
            d + total
        },
{
    if d >= 0 {
        lemma_small_mod(d as nat, total as nat);
    } else {
        lemma_mod_add_multiples_vanish(d, total);
        lemma_small_mod((d + total) as nat, total as nat);
    }
}

/// An image can be read as long as each of its bits has a number that can be counted, and so
/// has what a fragment at its end points at.
pub proof fn law_countable(len: nat)
    ensures
        8 * len <= usize::MAX - 65535 ==> bits_fit(len),
{
}

/// What stands behind a map up to the end of its sector is skipped: the next sector begins
/// less than a sector behind the map.
pub proof fn law_rest_of_sector(p: int, log2_size: nat)
    requires
        0 <= p,
    ensures
        ({
            let size = pow2(log2_size) as int;
            let end = sector_end(p, size);
            &&& p <= end < p + size
            &&& exists|n: int| end == #[trigger] (n * size)
        }),
{
    let size = pow2(log2_size) as int;
    lemma_pow2_pos(log2_size);
    crate::new_map::util::lemma_sector_end(p, size);
    let end = sector_end(p, size);
    lemma_fundamental_div_mod(end, size);
    let n = end / size;
    assert(end == n * size) by (nonlinear_arith)
        requires
            end == size * n + end % size,
            end % size == 0,
    ;
}

} // verus!
