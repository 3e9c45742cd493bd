//! The allocation map: which parts of the disc belong to which disc object.
//!
//! The map is a stream of bits, least significant bits first. It is made of
//! fragment blocks, one for each fragment in the order of the disc: first the
//! number of the disc object that the fragment belongs to, then some zeros, then
//! a one. The number of bits that a block takes is the number of allocation units
//! that the fragment takes on the disc. Several blocks may have the same number;
//! they are parts of the same disc object. Free space is on a list of its own, and
//! its fragments have the distance to the next one in place of a number.

use std::collections::HashMap;
use std::ops::Range;

use vstd::arithmetic::power2::*;
use vstd::prelude::*;

use super::bits::{lemma_raw_block, parse_raw_block, raw_block_at};
use super::chain::free_chain;
use super::record::AllocationParsingParams;
use super::util::{
    bit_index, bit_input_wf, bits_fit, BitInput, BitPosition, FragmentId, InputStream,
};
use super::{bare, Cause, CauseView, Defect, Fault, FaultView, ParseError};

verus! {

/// Where the allocation map begins, in bits from the beginning of the disc. The
/// space of the disc is counted from there.
pub const ALLOCATION_MAP_START_IN_BITS: usize = 512;

/// `Range::clone`: a range with copies of both bounds.
pub assume_specification<Idx: Clone>[ <Range<Idx> as Clone>::clone ](
    range: &Range<Idx>,
) -> (copy: Range<Idx>)
    ensures
        cloned::<Idx>(range.start, copy.start),
        cloned::<Idx>(range.end, copy.end),
;

/// One fragment of the disc, as the allocation map has it.
#[derive(Debug)]
pub struct FragmentBlock {
    /// The number of the disc object, or the distance to the next free fragment.
    pub id: FragmentId,
    /// Whether this is free space.
    pub free_space: bool,
    /// The bits that the block takes in the map.
    pub map_length: usize,
    /// Where the block begins.
    pub position: BitPosition,
    /// The bytes of the disc that the fragment takes.
    pub disk_region: Range<usize>,
}

/// The block at bit `p`. A number of more than 16 bits cannot be held; the stream may end
/// before that shows.
pub open spec fn block_at(s: Seq<u8>, p: int, params: AllocationParsingParams) -> Result<
    FragmentBlock,
    CauseView,
> {
    if params.fragment_id_length > 16 {
        if p + 16 < 8 * s.len() {
            Err(CauseView::Defect(Defect::Geometry))
        } else {
            Err(CauseView::Incomplete)
        }
    } else {
        read_block_at(s, p, params)
    }
}

/// The block at bit `p`, the number of which can be held.
pub open spec fn read_block_at(s: Seq<u8>, p: int, params: AllocationParsingParams) -> Result<
    FragmentBlock,
    CauseView,
> {
    match raw_block_at(s, p, params.fragment_id_length as nat) {
        None => Err(CauseView::Incomplete),
        Some((id, length)) => {
            let from = p - ALLOCATION_MAP_START_IN_BITS;
            if (from + length) * params.unit() > usize::MAX {
                Err(CauseView::Defect(Defect::Oversize))
            } else {
                Ok(
                    FragmentBlock {
                        id,
                        free_space: false,
                        map_length: length as usize,
                        position: BitPosition(p as usize),
                        disk_region: Range {
                            start: (from * params.unit()) as usize,
                            end: ((from + length) * params.unit()) as usize,
                        },
                    },
                )
            }
        },
    }
}

impl Clone for FragmentBlock {
    fn clone(&self) -> (copy: FragmentBlock)
        ensures
            copy == *self,
    {
        FragmentBlock {
            id: self.id,
            free_space: self.free_space,
            map_length: self.map_length,
            position: self.position,
            disk_region: self.disk_region(),
        }
    }
}

impl FragmentBlock {
    /// The bytes of the disc that the fragment takes.
    pub fn disk_region(&self) -> (r: Range<usize>)
        ensures
            r == self.disk_region,
    {
        self.disk_region.clone()
    }

    /// The same fragment, as free space.
    pub fn as_free(&self) -> (r: FragmentBlock)
        ensures
            r == (FragmentBlock { free_space: true, ..*self }),
    {
        FragmentBlock {
            id: self.id,
            free_space: true,
            map_length: self.map_length,
            position: self.position,
            disk_region: self.disk_region(),
        }
    }

    /// Reads one block.
    pub fn parse(input: &mut BitInput<'_>, params: &AllocationParsingParams) -> (r: Result<
        FragmentBlock,
        ParseError,
    >)
        requires
            bit_input_wf(*old(input)),
            old(input).0.bits_fit(),
            bit_index(*old(input)) >= ALLOCATION_MAP_START_IN_BITS,
            params.has_unit(),
        ensures
            bit_input_wf(*final(input)),
            final(input).0.data == old(input).0.data,
            match r {
                Ok(block) => {
                    &&& block_at(old(input).0.data@, bit_index(*old(input)), *params) == Ok::<
                        FragmentBlock,
                        CauseView,
                    >(block)
                    &&& bit_index(*final(input)) == bit_index(*old(input)) + block.map_length
                },
                Err(e) => {
                    &&& block_at(old(input).0.data@, bit_index(*old(input)), *params) is Err
                    &&& e@ == bare(
                        block_at(old(input).0.data@, bit_index(*old(input)), *params)->Err_0,
                    )
                    &&& *final(input) == *old(input)
                },
            },
    {
        let ghost s = input.0.data@;
        let ghost p = bit_index(*input);
        let begin: BitInput<'_> = *input;
        let idlen: usize = params.fragment_id_length();
        let total: usize = input.0.data.len();
        if idlen > 16 {
            let place: usize = 8 * input.0.pos + input.1;
            return if place + 16 < 8 * total {
                Err(ParseError::new(Cause::Defect(Defect::Geometry)))
            } else {
                Err(ParseError::new(Cause::Incomplete))
            };
        }
        let (id, map_length) = match parse_raw_block(input, idlen) {
            Ok(raw) => raw,
            Err(e) => {
                return Err(e);
            },
        };
        proof {
            lemma_raw_block(s, p, idlen as nat);
        }
        let position: usize = 8 * begin.0.pos + begin.1;
        let unit: usize = params.bytes_per_alloc_unit();
        let from: usize = position - ALLOCATION_MAP_START_IN_BITS;
        let disk_end: usize = match (from + map_length).checked_mul(unit) {
            Some(end) => end,
            None => {
                *input = begin;
                return Err(ParseError::new(Cause::Defect(Defect::Oversize)));
            },
        };
        proof {
            assert(from * unit <= (from + map_length) * unit) by (nonlinear_arith)
                requires
                    from >= 0,
                    map_length >= 0,
                    unit >= 0,
            ;
        }
        let disk_start: usize = from * unit;
        Ok(
            FragmentBlock {
                id,
                free_space: false,
                map_length,
                position: BitPosition(position),
                disk_region: disk_start..disk_end,
            },
        )
    }
}

/// The blocks from bit `p` on that `remaining` bits of the map are left for, and
/// the bit behind them. The last block may go on behind the end of the map.
pub open spec fn blocks_at(
    s: Seq<u8>,
    p: int,
    remaining: nat,
    params: AllocationParsingParams,
) -> Result<(Seq<FragmentBlock>, int), CauseView>
    decreases remaining,
{
    if remaining == 0 {
        Ok((Seq::empty(), p))
    } else {
        match block_at(s, p, params) {
            Err(cause) => Err(cause),
            Ok(block) => {
                let left = if remaining > block.map_length && block.map_length > 0 {
                    (remaining - block.map_length) as nat
                } else {
                    0
                };
                match blocks_at(s, p + block.map_length, left, params) {
                    Err(cause) => Err(cause),
                    Ok((more, end)) => Ok((seq![block] + more, end)),
                }
            },
        }
    }
}

/// Blocks by the place where they begin.
pub open spec fn by_position(blocks: Seq<FragmentBlock>) -> Map<usize, FragmentBlock>
    decreases blocks.len(),
{
    if blocks.len() == 0 {
        Map::empty()
    } else {
        by_position(blocks.drop_last()).insert(blocks.last().position.0, blocks.last())
    }
}

/// The number that each block holds.
pub open spec fn block_ids(blocks: Map<usize, FragmentBlock>) -> Map<usize, u16> {
    blocks.map_values(|b: FragmentBlock| b.id)
}

/// The blocks, with those at the given places as free space.
pub open spec fn with_free(
    blocks: Map<usize, FragmentBlock>,
    places: Seq<usize>,
) -> Map<usize, FragmentBlock> {
    blocks.map_entries(
        |k: usize, b: FragmentBlock|
            if places.contains(k) {
                FragmentBlock { free_space: true, ..b }
            } else {
                b
            },
    )
}

/// Where the first free fragment lies of a zone whose map begins at byte
/// `zone_start`: the link counts in bits from byte 1 of the zone.
pub open spec fn free_head(zone_start: int, free_link: u16) -> usize {
    (8 * (zone_start + 1) + free_link) as usize
}

/// The blocks after the list of free fragments of a zone has been walked, and the
/// fault that ended the walk early.
pub open spec fn walked(
    blocks: Map<usize, FragmentBlock>,
    zone_start: int,
    free_link: u16,
) -> (Map<usize, FragmentBlock>, Option<FaultView>) {
    let head = free_head(zone_start, free_link);
    if !blocks.contains_key(head) {
        (blocks, Some(FaultView::InvalidFreeLink(free_link)))
    } else {
        let (places, broken) = free_chain(block_ids(blocks), head);
        (
            with_free(blocks, places),
            match broken {
                None => None,
                Some(dest) => Some(
                    FaultView::BrokenFreeChain {
                        origin: BitPosition(places.last()),
                        dest_bit_offset: BitPosition(dest),
                    },
                ),
            },
        )
    }
}

/// Whether a search for the disc object `id` meets the first region before the second.
/// The search starts at the home zone of the object and goes around the end of the
/// disc.
pub open spec fn met_before(
    a: Range<usize>,
    b: Range<usize>,
    id: FragmentId,
    params: AllocationParsingParams,
) -> bool {
    let (x, y) = (params.search_distance(id, a.start), params.search_distance(id, b.start));
    x < y || (x == y && a.start < b.start)
}

/// Whether the regions come in the order in which the search for `id` meets them.
pub open spec fn in_search_order(
    regions: Seq<Range<usize>>,
    id: FragmentId,
    params: AllocationParsingParams,
) -> bool {
    forall|i: int, j: int|
        0 <= i < j < regions.len() ==> met_before(
            #[trigger] regions[i],
            #[trigger] regions[j],
            id,
            params,
        )
}

/// Whether the block at `k` belongs to the disc object `id`. Free space belongs to none:
/// where others have a number, it has the distance to the next free fragment.
pub open spec fn belongs_to(blocks: Map<usize, FragmentBlock>, k: usize, id: FragmentId) -> bool {
    blocks.contains_key(k) && blocks[k].id == id && !blocks[k].free_space
}

/// Whether the disc object `id` has a fragment.
pub open spec fn on_disc(blocks: Map<usize, FragmentBlock>, id: FragmentId) -> bool {
    exists|k: usize| belongs_to(blocks, k, id)
}

/// Whether `region` is that of a fragment of the disc object `id`.
pub open spec fn is_region_of(
    blocks: Map<usize, FragmentBlock>,
    region: Range<usize>,
    id: FragmentId,
) -> bool {
    exists|k: usize| #[trigger] belongs_to(blocks, k, id) && blocks[k].disk_region == region
}

/// Whether `regions` are those of all fragments of a disc object, in search order.
pub open spec fn lists_regions(
    regions: Seq<Range<usize>>,
    blocks: Map<usize, FragmentBlock>,
    id: FragmentId,
    params: AllocationParsingParams,
) -> bool {
    &&& in_search_order(regions, id, params)
    &&& forall|region: Range<usize>| #[trigger]
        regions.contains(region) <==> is_region_of(blocks, region, id)
}

/// The regions of a disc object, in search order.
pub open spec fn regions_of(
    blocks: Map<usize, FragmentBlock>,
    id: FragmentId,
    params: AllocationParsingParams,
) -> Seq<Range<usize>> {
    choose|regions: Seq<Range<usize>>| lists_regions(regions, blocks, id, params)
}

/// The regions of every disc object that has a fragment.
pub open spec fn object_map(
    blocks: Map<usize, FragmentBlock>,
    params: AllocationParsingParams,
) -> Map<FragmentId, Seq<Range<usize>>> {
    Map::new(
        |id: FragmentId| on_disc(blocks, id),
        |id: FragmentId| regions_of(blocks, id, params),
    )
}

/// Whether no disc object has two fragments.
pub open spec fn one_part_each(blocks: Map<usize, FragmentBlock>) -> bool {
    forall|a: usize, b: usize, id: FragmentId| #[trigger]
        belongs_to(blocks, a, id) && #[trigger] belongs_to(blocks, b, id) ==> a == b
}

/// Whether the fragments of each disc object can be put in order: there is an order, or
/// nothing to be put in order.
pub open spec fn can_be_ordered(
    blocks: Map<usize, FragmentBlock>,
    params: AllocationParsingParams,
) -> bool {
    params.orders_fragments() || one_part_each(blocks)
}

/// Whether no two fragments begin at the same place of the disc.
pub open spec fn starts_differ(blocks: Map<usize, FragmentBlock>) -> bool {
    forall|a: usize, b: usize|
        #![trigger blocks.contains_key(a), blocks.contains_key(b)]
        blocks.contains_key(a) && blocks.contains_key(b) && a != b ==> blocks[a].disk_region.start
            != blocks[b].disk_region.start
}

/// Whether the block at `k` stands for the number `id`: it has that number, and is not
/// free space unless all blocks with that number are.
pub open spec fn stands_for(blocks: Map<usize, FragmentBlock>, k: usize, id: FragmentId) -> bool {
    &&& blocks.contains_key(k)
    &&& blocks[k].id == id
    &&& on_disc(blocks, id) ==> !blocks[k].free_space
}

/// Whether the block at `k` has the number `id`, and is free space or not.
pub open spec fn is_marked(
    blocks: Map<usize, FragmentBlock>,
    k: usize,
    id: FragmentId,
    free: bool,
) -> bool {
    blocks.contains_key(k) && blocks[k].id == id && blocks[k].free_space == free
}

/// Whether some block has the number `id`.
pub open spec fn has_number(blocks: Map<usize, FragmentBlock>, id: FragmentId) -> bool {
    exists|k: usize| #[trigger] blocks.contains_key(k) && blocks[k].id == id
}

/// The first block of a zone that stands for the number `id`.
pub open spec fn first_block(blocks: Map<usize, FragmentBlock>, id: FragmentId) -> Option<
    FragmentBlock,
> {
    if exists|k: usize| is_first_block(blocks, id, k) {
        Some(blocks[choose|k: usize| is_first_block(blocks, id, k)])
    } else {
        None
    }
}

/// Whether the first block that stands for the number `id` lies at `k`.
pub open spec fn is_first_block(
    blocks: Map<usize, FragmentBlock>,
    id: FragmentId,
    k: usize,
) -> bool {
    &&& stands_for(blocks, k, id)
    &&& forall|other: usize| #[trigger] stands_for(blocks, other, id) ==> k <= other
}

/// Which parts of the disc belong to which disc object.
#[derive(Debug)]
pub struct AllocationMap {
    /// The blocks by the place where they begin.
    pub fragments: HashMap<usize, FragmentBlock>,
    /// The parts of each disc object in their order.
    pub object_regions: HashMap<FragmentId, Vec<Range<usize>>>,
}

impl Clone for AllocationMap {
    fn clone(&self) -> (copy: AllocationMap)
        ensures
            copy.fragments@ == self.fragments@,
            copy.object_regions@ == self.object_regions@,
            copy@ == self@,
    {
        AllocationMap {
            fragments: self.fragments.clone(),
            object_regions: self.object_regions.clone(),
        }
    }
}

/// An [`AllocationMap`] with the views of its parts.
pub struct AllocationMapView {
    pub fragments: Map<usize, FragmentBlock>,
    pub object_regions: Map<FragmentId, Seq<Range<usize>>>,
}

/// The regions of each disc object as sequences.
pub open spec fn region_views(regions: Map<FragmentId, Vec<Range<usize>>>) -> Map<
    FragmentId,
    Seq<Range<usize>>,
> {
    regions.map_values(|list: Vec<Range<usize>>| list@)
}

impl View for AllocationMap {
    type V = AllocationMapView;

    open spec fn view(&self) -> AllocationMapView {
        AllocationMapView {
            fragments: self.fragments@,
            object_regions: region_views(self.object_regions@),
        }
    }
}

/// Whether the places of all blocks leave room for what they point at.
pub open spec fn places_fit(blocks: Map<usize, FragmentBlock>) -> bool {
    forall|k: usize| #[trigger] blocks.contains_key(k) ==> k + 0xFFFF <= usize::MAX
}

/// Whether every fragment begins where its place in the map says.
pub open spec fn starts_by_position(
    blocks: Map<usize, FragmentBlock>,
    params: AllocationParsingParams,
) -> bool {
    forall|k: usize| #[trigger]
        blocks.contains_key(k) ==> blocks[k].disk_region.start == (k - ALLOCATION_MAP_START_IN_BITS)
            * params.unit()
}

/// Fragments that begin where their places in the map say begin at different places.
proof fn lemma_starts_differ(blocks: Map<usize, FragmentBlock>, params: AllocationParsingParams)
    requires
        starts_by_position(blocks, params),
    ensures
        starts_differ(blocks),
{
    let unit = params.unit() as int;
    lemma_pow2_pos(params.log_bytes_per_alloc as nat);
    assert forall|a: usize, b: usize|
        #![trigger blocks.contains_key(a), blocks.contains_key(b)]
        blocks.contains_key(a) && blocks.contains_key(b) && a
            != b implies blocks[a].disk_region.start != blocks[b].disk_region.start by {
        let (x, y) = (a - ALLOCATION_MAP_START_IN_BITS, b - ALLOCATION_MAP_START_IN_BITS);
        assert(x * unit != y * unit) by (nonlinear_arith)
            requires
                x != y,
                unit >= 1,
        ;
    }
}

/// Whether every block is filed under its own place.
pub open spec fn filed_by_position(blocks: Map<usize, FragmentBlock>) -> bool {
    forall|k: usize| #[trigger] blocks.contains_key(k) ==> blocks[k].position.0 == k
}

impl AllocationMap {
    /// Walks the list of free fragments of the zone whose map begins at byte
    /// `zone_start`, and marks each fragment on it as free space. The link counts in
    /// bits from byte 1 of the zone.
    ///
    /// Fails where no fragment begins there, or where a fragment on the list
    /// points at a place where none begins; what has been marked stays marked.
    pub fn walk_free_chain(
        fragments: &mut HashMap<usize, FragmentBlock>,
        zone_start: usize,
        free_link: u16,
    ) -> (r: Result<(), Fault>)
        requires
            8 * (zone_start + 1) + free_link <= usize::MAX,
            places_fit(old(fragments)@),
            filed_by_position(old(fragments)@),
        ensures
            ({
                let expected = walked(old(fragments)@, zone_start as int, free_link);
                &&& final(fragments)@ == expected.0
                &&& match r {
                    Ok(_) => expected.1 is None,
                    Err(fault) => expected.1 == Some(fault@),
                }
            }),
    {
        broadcast use vstd::std_specs::hash::group_hash_axioms;

        let ghost before = fragments@;
        let ghost ids = block_ids(before);
        let head: usize = 8 * (zone_start + 1) + free_link as usize;
        let mut cursor_id: u16;
        match fragments.get(&head) {
            None => {
                return Err(Fault::InvalidFreeLink(free_link));
            },
            Some(block) => {
                cursor_id = block.id;
                let free = block.as_free();
                fragments.insert(head, free);
            },
        }
        let mut cursor: usize = head;
        let ghost mut places: Seq<usize> = seq![head];
        proof {
            lemma_with_free_push(before, Seq::empty(), head);
            assert(with_free(before, Seq::empty()) =~= before);
            assert(Seq::<usize>::empty().push(head) =~= seq![head]);
            assert(free_chain(ids, head).0 =~= places.drop_last() + free_chain(ids, head).0);
        }
        while cursor_id != 0
            invariant
                places_fit(before),
                filed_by_position(before),
                ids == block_ids(before),
                head == free_head(zone_start as int, free_link),
                before.contains_key(head),
                before == old(fragments)@,
                before.contains_key(cursor),
                cursor_id == ids[cursor],
                places.len() > 0,
                places.last() == cursor,
                fragments@ == with_free(before, places),
                free_chain(ids, head).0 == places.drop_last() + free_chain(ids, cursor).0,
                free_chain(ids, head).1 == free_chain(ids, cursor).1,
            decreases usize::MAX - cursor,
        {
            let dest: usize = cursor_id as usize + cursor;
            match fragments.get(&dest) {
                None => {
                    proof {
                        assert(free_chain(ids, cursor).0 =~= seq![cursor]);
                        assert(places =~= places.drop_last() + seq![cursor]);
                    }
                    return Err(
                        Fault::BrokenFreeChain {
                            origin: BitPosition(cursor),
                            dest_bit_offset: BitPosition(dest),
                        },
                    );
                },
                Some(block) => {
                    cursor_id = block.id;
                    let free = block.as_free();
                    proof {
                        lemma_with_free_push(before, places, dest);
                        assert(places.push(dest).drop_last() =~= places);
                        assert(places =~= places.drop_last() + seq![cursor]);
                        let more = free_chain(ids, dest).0;
                        assert(free_chain(ids, cursor).0 =~= seq![cursor] + more);
                        assert(places.drop_last() + (seq![cursor] + more) =~= places + more);
                        places = places.push(dest);
                    }
                    fragments.insert(dest, free);
                    cursor = dest;
                },
            }
        }
        proof {
            assert(free_chain(ids, cursor).0 =~= seq![cursor]);
            assert(places =~= places.drop_last() + seq![cursor]);
        }
        Ok(())
    }

    /// Puts the fragments of each disc object in their order.
    pub fn build_fragment_map(
        blocks: &HashMap<usize, FragmentBlock>,
        params: &AllocationParsingParams,
    ) -> (r: HashMap<FragmentId, Vec<Range<usize>>>)
        requires
            params.sizes_fit(),
            can_be_ordered(blocks@, *params),
            starts_differ(blocks@),
        ensures
            region_views(r@) == object_map(blocks@, *params),
            forall|id: FragmentId| #[trigger]
                r@.contains_key(id) ==> lists_regions(r@[id]@, blocks@, id, *params),
    {
        match AllocationMap::try_build_fragment_map(blocks, params) {
            Some(regions) => regions,
            None => HashMap::new(),
        }
    }

    /// Puts the fragments of each disc object in their order, if that can be done.
    fn try_build_fragment_map(
        blocks: &HashMap<usize, FragmentBlock>,
        params: &AllocationParsingParams,
    ) -> (r: Option<HashMap<FragmentId, Vec<Range<usize>>>>)
        requires
            params.sizes_fit(),
            starts_differ(blocks@),
        ensures
            r is Some <==> can_be_ordered(blocks@, *params),
            r matches Some(regions) ==> {
                &&& region_views(regions@) == object_map(blocks@, *params)
                &&& forall|id: FragmentId| #[trigger]
                    regions@.contains_key(id) ==> lists_regions(
                        regions@[id]@,
                        blocks@,
                        id,
                        *params,
                    )
            },
    {
        broadcast use vstd::std_specs::hash::group_hash_axioms;

        let mut regions: HashMap<FragmentId, Vec<Range<usize>>> = HashMap::new();
        let ordered: bool = params.check_order();
        let ghost mut seen: Map<usize, FragmentBlock> = Map::empty();
        for kv in it: blocks.iter()
            invariant
                params.sizes_fit(),
                ordered == params.orders_fragments(),
                !ordered ==> one_part_each(seen),
                starts_differ(blocks@),
                it.seq().no_duplicates(),
                forall|i: int|
                    0 <= i < it.seq().len() ==> blocks@.contains_key(*(#[trigger] it.seq()[i]).0)
                        && blocks@[*it.seq()[i].0] == *it.seq()[i].1,
                forall|k: usize|
                    blocks@.contains_key(k) ==> #[trigger] it.seq().contains((&k, &blocks@[k])),
                forall|k: usize| #[trigger]
                    seen.contains_key(k) <==> exists|i: int|
                        0 <= i < it.index() && *(#[trigger] it.seq()[i]).0 == k,
                forall|k: usize| #[trigger] seen.contains_key(k) ==> seen[k] == blocks@[k],
                forall|k: usize| #[trigger] seen.contains_key(k) ==> blocks@.contains_key(k),
                it.index() == it.seq().len() ==> forall|k: usize|
                    blocks@.contains_key(k) ==> #[trigger] seen.contains_key(k),
                forall|id: FragmentId| #[trigger]
                    regions@.contains_key(id) <==> on_disc(seen, id),
                forall|id: FragmentId| #[trigger]
                    regions@.contains_key(id) ==> lists_regions(regions@[id]@, seen, id, *params),
        {
            let k: usize = *kv.0;
            let block: &FragmentBlock = kv.1;
            let id: FragmentId = block.id;
            let ghost old_regions = regions@;
            let ghost old_seen = seen;
            let ghost index = it.index();
            proof {
                assert(it.seq()[index] == kv);
                assert(blocks@.contains_key(k));
                if seen.contains_key(k) {
                    let i = choose|i: int| 0 <= i < index && *(#[trigger] it.seq()[i]).0 == k;
                    assert(it.seq()[i] == it.seq()[index]);
                }
            }
            proof {
                seen = seen.insert(k, *block);
                assert forall|k2: usize| #[trigger] seen.contains_key(k2) <==> exists|i: int|
                    0 <= i < index + 1 && *(#[trigger] it.seq()[i]).0 == k2 by {
                    if k2 == k {
                        assert(*it.seq()[index].0 == k2);
                    } else if old_seen.contains_key(k2) {
                        let i = choose|i: int| 0 <= i < index && *(#[trigger] it.seq()[i]).0 == k2;
                        assert(0 <= i < index + 1 && *it.seq()[i].0 == k2);
                    }
                }
                assert forall|k2: usize|
                    index + 1 == it.seq().len() && blocks@.contains_key(
                        k2,
                    ) implies #[trigger] seen.contains_key(k2) by {
                    assert(it.seq().contains((&k2, &blocks@[k2])));
                    let i = choose|i: int|
                        0 <= i < it.seq().len() && it.seq()[i] == (&k2, &blocks@[k2]);
                    assert(*it.seq()[i].0 == k2);
                }
            }
            if block.free_space {
                proof {
                    if !ordered {
                        assert forall|a: usize, b: usize, id: FragmentId| #[trigger]
                            belongs_to(seen, a, id) && #[trigger] belongs_to(seen, b, id) implies a
                            == b by {
                            assert(belongs_to(old_seen, a, id) && belongs_to(old_seen, b, id));
                        }
                    }
                    lemma_one_more_block(old_seen, k, *block);
                    lemma_free_block_in_no_object(old_seen, k, *block);
                    assert forall|j: FragmentId| #[trigger]
                        regions@.contains_key(j) implies lists_regions(
                        regions@[j]@,
                        seen,
                        j,
                        *params,
                    ) by {
                        assert forall|region: Range<usize>| #[trigger]
                            regions@[j]@.contains(region) <==> is_region_of(seen, region, j) by {
                            assert(regions@[j]@.contains(region) <==> is_region_of(
                                old_seen,
                                region,
                                j,
                            ));
                        }
                    }
                }
            } else {
                let mut list: Vec<Range<usize>> = match regions.remove(&id) {
                    Some(list) => list,
                    None => Vec::new(),
                };
                let ghost old_list = list@;
                if list.len() > 0 && !ordered {
                    proof {
                        assert(old_regions.contains_key(id));
                        let k2 = choose|k2: usize| belongs_to(old_seen, k2, id);
                        assert(belongs_to(blocks@, k2, id) && belongs_to(blocks@, k, id));
                        assert(!one_part_each(blocks@));
                    }
                    return None;
                }
                proof {
                    if !ordered {
                        lemma_still_one_part(old_seen, k, *block, old_list, *params);
                    }
                    assert(lists_regions(old_list, old_seen, id, *params)) by {
                        if !old_regions.contains_key(id) {
                            assert forall|region: Range<usize>| #[trigger]
                                old_list.contains(region) <==> is_region_of(old_seen, region, id) by {
                                if is_region_of(old_seen, region, id) {
                                    let k2 = choose|k2: usize| #[trigger]
                                        belongs_to(old_seen, k2, id) && old_seen[k2].disk_region
                                            == region;
                                    assert(belongs_to(old_seen, k2, id));
                                }
                            }
                        }
                    }
                    assert forall|i: int| 0 <= i < old_list.len() implies (#[trigger] old_list[i]).start
                        != block.disk_region.start by {
                        assert(old_list.contains(old_list[i]));
                        assert(is_region_of(old_seen, old_list[i], id));
                        let k2 = choose|k2: usize| #[trigger]
                            belongs_to(old_seen, k2, id) && old_seen[k2].disk_region == old_list[i];
                        assert(old_seen.contains_key(k2));
                        assert(blocks@.contains_key(k2));
                    }
                }
                insert_in_search_order(&mut list, block.disk_region(), id, params);
                proof {
                    lemma_one_more_block(old_seen, k, *block);
                }
                regions.insert(id, list);
                proof {
                    assert forall|j: FragmentId| #[trigger] regions@.contains_key(j) <==> on_disc(
                        seen,
                        j,
                    ) by {
                        if j == id {
                            assert(belongs_to(seen, k, j));
                        } else {
                            assert(regions@.contains_key(j) == old_regions.contains_key(j));
                            if old_regions.contains_key(j) {
                                let k2 = choose|k2: usize| belongs_to(old_seen, k2, j);
                                assert(belongs_to(seen, k2, j));
                            }
                            if on_disc(seen, j) {
                                let k2 = choose|k2: usize| belongs_to(seen, k2, j);
                                assert(belongs_to(old_seen, k2, j));
                            }
                        }
                    }
                    assert forall|j: FragmentId| #[trigger]
                        regions@.contains_key(j) implies lists_regions(
                        regions@[j]@,
                        seen,
                        j,
                        *params,
                    ) by {
                        if j == id {
                            assert forall|region: Range<usize>| #[trigger]
                                list@.contains(region) <==> is_region_of(seen, region, id) by {
                                assert(old_list.contains(region) <==> is_region_of(
                                    old_seen,
                                    region,
                                    id,
                                ));
                            }
                        } else {
                            assert(old_regions.contains_key(j));
                            assert forall|region: Range<usize>| #[trigger]
                                regions@[j]@.contains(region) <==> is_region_of(seen, region, j) by {
                                assert(regions@[j]@.contains(region) <==> is_region_of(
                                    old_seen,
                                    region,
                                    j,
                                ));
                            }
                        }
                    }
                }
            }
        }
        proof {
            assert(seen =~= blocks@);
            assert forall|id: FragmentId| #[trigger] regions@.contains_key(id) implies regions@[id]@
                == regions_of(blocks@, id, *params) by {
                lemma_regions_of(regions@[id]@, blocks@, id, *params);
            }
            assert(region_views(regions@) =~= object_map(blocks@, *params));
        }
        Some(regions)
    }

    /// Reads the allocation map of the zone whose map begins at byte `zone_start`:
    /// first all blocks, and then the list of free fragments among them.
    pub fn parse(
        input: &mut InputStream<'_>,
        zone_start: usize,
        params: &AllocationParsingParams,
    ) -> (r: Result<AllocationMap, ParseError>)
        requires
            old(input).wf(),
            old(input).bits_fit(),
            8 * old(input).pos >= ALLOCATION_MAP_START_IN_BITS,
            zone_start < old(input).pos,
            params.wf(),
        ensures
            final(input).wf(),
            final(input).data == old(input).data,
            ({
                let expected = map_at(
                    old(input).data@,
                    old(input).pos as int,
                    zone_start as int,
                    *params,
                );
                match r {
                    Ok(map) => {
                        &&& expected is Ok
                        &&& map@ == expected->Ok_0.0
                        &&& final(input).pos == expected->Ok_0.1
                        &&& map.regions_in_order(*params)
                    },
                    Err(e) => {
                        &&& expected is Err
                        &&& e@ == bare(expected->Err_0)
                        &&& *final(input) == *old(input)
                    },
                }
            }),
    {
        broadcast use vstd::std_specs::hash::group_hash_axioms;

        let ghost s = input.data@;
        let ghost p = 8 * input.pos as int;
        let ghost asked = params.mapped_space_in_alloc_units as nat;
        let total: usize = input.data.len();
        let mut bits_remaining: usize = params.mapped_space_in_alloc_units();
        let mut fragments: HashMap<usize, FragmentBlock> = HashMap::new();
        let mut stream: BitInput<'_> = (*input, 0);
        let ghost mut blocks: Seq<FragmentBlock> = Seq::empty();
        proof {
            if blocks_at(s, p, asked, *params) is Ok {
                assert(blocks + blocks_at(s, p, asked, *params)->Ok_0.0 =~= blocks_at(
                    s,
                    p,
                    asked,
                    *params,
                )->Ok_0.0);
            }
        }
        while bits_remaining > 0
            invariant
                *input == *old(input),
                s == input.data@,
                p == 8 * input.pos,
                asked == params.mapped_space_in_alloc_units,
                total == s.len(),
                input.bits_fit(),
                params.wf(),
                bit_input_wf(stream),
                stream.0.data == input.data,
                bit_index(stream) >= p,
                bit_index(stream) <= 8 * total,
                p >= ALLOCATION_MAP_START_IN_BITS,
                fragments@ == by_position(blocks),
                places_fit(fragments@),
                filed_by_position(fragments@),
                starts_by_position(fragments@, *params),
                match blocks_at(s, bit_index(stream), bits_remaining as nat, *params) {
                    Err(cause) => blocks_at(s, p, asked, *params) == Err::<
                        (Seq<FragmentBlock>, int),
                        CauseView,
                    >(cause),
                    Ok((more, end)) => blocks_at(s, p, asked, *params) == Ok::<
                        (Seq<FragmentBlock>, int),
                        CauseView,
                    >((blocks + more, end)),
                },
            decreases bits_remaining,
        {
            let ghost at = bit_index(stream);
            let ghost left = bits_remaining as nat;
            match FragmentBlock::parse(&mut stream, params) {
                Err(e) => {
                    return Err(e);
                },
                Ok(block) => {
                    proof {
                        lemma_raw_block(s, at, params.fragment_id_length as nat);
                        assert(block.map_length >= 1);
                        assert(0 <= (at - ALLOCATION_MAP_START_IN_BITS) * params.unit()
                            <= (at - ALLOCATION_MAP_START_IN_BITS + block.map_length)
                            * params.unit()) by (nonlinear_arith)
                            requires
                                at >= ALLOCATION_MAP_START_IN_BITS,
                                block.map_length >= 0,
                        ;
                        let next = if left > block.map_length {
                            (left - block.map_length) as nat
                        } else {
                            0
                        };
                        match blocks_at(s, at + block.map_length, next, *params) {
                            Err(_) => {},
                            Ok((more, _)) => {
                                assert(blocks + (seq![block] + more) =~= blocks.push(block) + more);
                            },
                        }
                        assert(blocks.push(block).drop_last() =~= blocks);
                        blocks = blocks.push(block);
                    }
                    if bits_remaining > block.map_length {
                        bits_remaining = bits_remaining - block.map_length;
                    } else {
                        bits_remaining = 0;
                    }
                    fragments.insert(block.position.0, block);
                },
            }
        }
        proof {
            assert(blocks + Seq::<FragmentBlock>::empty() =~= blocks);
        }
        if params.free_link() != 0 {
            match AllocationMap::walk_free_chain(&mut fragments, zone_start, params.free_link()) {
                Ok(_) => {},
                Err(fault) => {
                    return Err(ParseError::new(Cause::Fault(fault)));
                },
            }
        }
        proof {
            lemma_starts_differ(fragments@, *params);
        }
        let object_regions = match AllocationMap::try_build_fragment_map(&fragments, params) {
            Some(regions) => regions,
            None => {
                return Err(ParseError::new(Cause::Defect(Defect::Geometry)));
            },
        };
        input.pos = if stream.1 == 0 {
            stream.0.pos
        } else {
            stream.0.pos + 1
        };
        Ok(AllocationMap { fragments, object_regions })
    }

    /// Whether the parts of the disc objects are listed in their order.
    pub open spec fn regions_in_order(&self, params: AllocationParsingParams) -> bool {
        forall|id: FragmentId| #[trigger]
            self.object_regions@.contains_key(id) ==> lists_regions(
                self.object_regions@[id]@,
                self.fragments@,
                id,
                params,
            )
    }

    /// A block of the zone with the number `id`: the first that is not free space, or, if
    /// all of them are, the first of them.
    pub fn get_fragment(&self, id: FragmentId) -> (r: Option<&FragmentBlock>)
        ensures
            match r {
                Some(block) => {
                    &&& first_block(self@.fragments, id) == Some(*block)
                    &&& block.id == id
                    &&& exists|k: usize| #[trigger]
                        self@.fragments.contains_key(k) && self@.fragments[k] == *block
                    &&& on_disc(self@.fragments, id) ==> !block.free_space
                },
                None => {
                    &&& first_block(self@.fragments, id) is None
                    &&& forall|k: usize| #[trigger]
                        self@.fragments.contains_key(k) ==> self@.fragments[k].id != id
                },
            },
    {
        let ghost blocks = self@.fragments;
        let used = self.first_marked(id, false);
        let best = match used {
            Some(found) => Some(found),
            None => self.first_marked(id, true),
        };
        proof {
            assert forall|k: usize| #[trigger] belongs_to(blocks, k, id) <==> is_marked(
                blocks,
                k,
                id,
                false,
            ) by {}
            lemma_first_block(blocks, id);
            if let Some((at, _)) = used {
                assert(belongs_to(blocks, at, id));
            }
        }
        match best {
            None => {
                proof {
                    assert forall|k: usize| #[trigger] blocks.contains_key(k) implies blocks[k].id
                        != id by {
                        assert(!is_marked(blocks, k, id, false));
                        assert(!is_marked(blocks, k, id, true));
                    }
                }
                None
            },
            Some((at, block)) => {
                proof {
                    assert forall|other: usize| #[trigger] stands_for(blocks, other, id) implies at
                        <= other by {
                        assert(is_marked(blocks, other, id, blocks[other].free_space));
                        assert(belongs_to(blocks, other, id) <==> is_marked(
                            blocks,
                            other,
                            id,
                            false,
                        ));
                    }
                    assert(is_first_block(blocks, id, at));
                    let k = choose|k: usize| is_first_block(blocks, id, k);
                    assert(is_first_block(blocks, id, k));
                    assert(stands_for(blocks, k, id) && stands_for(blocks, at, id));
                    assert(k <= at && at <= k);
                }
                Some(block)
            },
        }
    }

    /// The first block with the number `id` that is free space, or that is not.
    fn first_marked(&self, id: FragmentId, free: bool) -> (r: Option<(usize, &FragmentBlock)>)
        ensures
            match r {
                Some((at, block)) => {
                    &&& is_marked(self@.fragments, at, id, free)
                    &&& self@.fragments[at] == *block
                    &&& forall|k: usize| #[trigger]
                        is_marked(self@.fragments, k, id, free) ==> at <= k
                },
                None => forall|k: usize| !#[trigger] is_marked(self@.fragments, k, id, free),
            },
    {
        broadcast use vstd::std_specs::hash::group_hash_axioms;

        let mut best: Option<(usize, &FragmentBlock)> = None;
        let ghost blocks = self.fragments@;
        for kv in it: self.fragments.iter()
            invariant
                blocks == self.fragments@,
                forall|i: int|
                    0 <= i < it.seq().len() ==> blocks.contains_key(*(#[trigger] it.seq()[i]).0)
                        && blocks[*it.seq()[i].0] == *it.seq()[i].1,
                forall|k: usize|
                    blocks.contains_key(k) ==> #[trigger] it.seq().contains((&k, &blocks[k])),
                match best {
                    None => forall|i: int|
                        0 <= i < it.index() ==> (#[trigger] it.seq()[i]).1.id != id
                            || it.seq()[i].1.free_space != free,
                    Some((at, block)) => {
                        &&& blocks.contains_key(at)
                        &&& blocks[at] == *block
                        &&& block.id == id
                        &&& block.free_space == free
                        &&& forall|i: int|
                            0 <= i < it.index() ==> (#[trigger] it.seq()[i]).1.id == id
                                && it.seq()[i].1.free_space == free ==> at <= *it.seq()[i].0
                    },
                },
                it.index() == it.seq().len() ==> forall|k: usize| #[trigger]
                    is_marked(blocks, k, id, free) ==> match best {
                        None => false,
                        Some((at, _)) => at <= k,
                    },
        {
            let k: usize = *kv.0;
            let block: &FragmentBlock = kv.1;
            let ghost index = it.index();
            if block.id == id && block.free_space == free {
                best = match best {
                    None => Some((k, block)),
                    Some((at, other)) => if k < at {
                        Some((k, block))
                    } else {
                        Some((at, other))
                    },
                };
            }
            proof {
                assert(it.seq()[index] == kv);
                assert forall|k2: usize|
                    index + 1 == it.seq().len() && #[trigger] is_marked(
                        blocks,
                        k2,
                        id,
                        free,
                    ) implies match best {
                    None => false,
                    Some((at, _)) => at <= k2,
                } by {
                    assert(it.seq().contains((&k2, &blocks[k2])));
                    let i = choose|i: int|
                        0 <= i < it.seq().len() && it.seq()[i] == (&k2, &blocks[k2]);
                    assert(it.seq()[i].1.id == id);
                }
            }
        }
        best
    }

    /// The blocks in the order of the disc.
    pub fn blocks_in_order(&self) -> (r: Vec<&FragmentBlock>)
        requires
            filed_by_position(self@.fragments),
        ensures
            forall|i: int, j: int|
                0 <= i < j < r@.len() ==> (#[trigger] r@[i]).position.0 < (#[trigger] r@[j]).position.0,
            forall|i: int|
                0 <= i < r@.len() ==> {
                    &&& self@.fragments.contains_key((#[trigger] r@[i]).position.0)
                    &&& self@.fragments[r@[i].position.0] == *r@[i]
                },
            forall|k: usize| #[trigger]
                self@.fragments.contains_key(k) ==> exists|i: int|
                    0 <= i < r@.len() && (#[trigger] r@[i]).position.0 == k,
    {
        broadcast use vstd::std_specs::hash::group_hash_axioms;

        let places: Vec<usize> = self.places_in_order();
        let mut sorted: Vec<&FragmentBlock> = Vec::new();
        let mut i: usize = 0;
        while i < places.len()
            invariant
                i <= places@.len(),
                filed_by_position(self@.fragments),
                ascending(places@),
                forall|k: usize| #[trigger] places@.contains(k) <==> self@.fragments.contains_key(k),
                sorted@.len() == i,
                forall|j: int|
                    0 <= j < i ==> (#[trigger] sorted@[j]).position.0 == places@[j]
                        && self@.fragments.contains_key(places@[j]) && self@.fragments[places@[j]] == *sorted@[j],
            decreases places@.len() - i,
        {
            assert(places@.contains(places@[i as int]));
            if let Some(block) = self.fragments.get(&places[i]) {
                sorted.push(block);
            }
            i = i + 1;
        }
        proof {
            assert forall|k: usize| #[trigger] self@.fragments.contains_key(k) implies exists|j: int|
                0 <= j < sorted@.len() && (#[trigger] sorted@[j]).position.0 == k by {
                assert(places@.contains(k));
                let j = choose|j: int| 0 <= j < places@.len() && places@[j] == k;
                assert(sorted@[j].position.0 == k);
            }
        }
        sorted
    }

    /// The parts of each disc object, in the order of the numbers of the objects.
    pub fn objects_in_order(&self) -> (r: Vec<(FragmentId, &Vec<Range<usize>>)>)
        ensures
            forall|i: int, j: int|
                0 <= i < j < r@.len() ==> (#[trigger] r@[i]).0 < (#[trigger] r@[j]).0,
            forall|i: int|
                0 <= i < r@.len() ==> {
                    &&& self.object_regions@.contains_key((#[trigger] r@[i]).0)
                    &&& self.object_regions@[r@[i].0] == *r@[i].1
                },
            forall|id: FragmentId| #[trigger]
                self.object_regions@.contains_key(id) ==> exists|i: int|
                    0 <= i < r@.len() && (#[trigger] r@[i]).0 == id,
    {
        broadcast use vstd::std_specs::hash::group_hash_axioms;

        let mut objects: Vec<(FragmentId, &Vec<Range<usize>>)> = Vec::new();
        let mut next: u32 = 0;
        while next < 0x1_0000
            invariant
                next <= 0x1_0000,
                forall|i: int, j: int|
                    0 <= i < j < objects@.len() ==> (#[trigger] objects@[i]).0 < (
                    #[trigger] objects@[j]).0,
                forall|i: int|
                    0 <= i < objects@.len() ==> {
                        &&& (#[trigger] objects@[i]).0 < next
                        &&& self.object_regions@.contains_key(objects@[i].0)
                        &&& self.object_regions@[objects@[i].0] == *objects@[i].1
                    },
                forall|id: FragmentId| #[trigger]
                    self.object_regions@.contains_key(id) && id < next ==> exists|i: int|
                        0 <= i < objects@.len() && (#[trigger] objects@[i]).0 == id,
            decreases 0x1_0000 - next,
        {
            let id: FragmentId = next as FragmentId;
            let ghost before = objects@;
            if let Some(regions) = self.object_regions.get(&id) {
                objects.push((id, regions));
                assert(objects@[before.len() as int].0 == id);
            }
            proof {
                assert forall|other: FragmentId| #[trigger]
                    self.object_regions@.contains_key(other) && other < next + 1 implies exists|
                    i: int,
                |
                    0 <= i < objects@.len() && (#[trigger] objects@[i]).0 == other by {
                    if other < next {
                        let i = choose|i: int|
                            0 <= i < before.len() && (#[trigger] before[i]).0 == other;
                        assert(objects@[i] == before[i]);
                    }
                }
            }
            next = next + 1;
        }
        objects
    }

    /// The places where blocks begin, in the order of the disc.
    fn places_in_order(&self) -> (r: Vec<usize>)
        ensures
            ascending(r@),
            forall|k: usize| #[trigger] r@.contains(k) <==> self@.fragments.contains_key(k),
    {
        broadcast use vstd::std_specs::hash::group_hash_axioms;

        let mut places: Vec<usize> = Vec::new();
        let ghost blocks = self.fragments@;
        for kv in it: self.fragments.iter()
            invariant
                blocks == self.fragments@,
                forall|i: int|
                    0 <= i < it.seq().len() ==> blocks.contains_key(*(#[trigger] it.seq()[i]).0)
                        && blocks[*it.seq()[i].0] == *it.seq()[i].1,
                forall|k: usize|
                    blocks.contains_key(k) ==> #[trigger] it.seq().contains((&k, &blocks[k])),
                ascending(places@),
                forall|k: usize| #[trigger] places@.contains(k) ==> blocks.contains_key(k),
                forall|j: int| 0 <= j < it.index() ==> places@.contains(*(#[trigger] it.seq()[j]).0),
                it.index() == it.seq().len() ==> forall|k: usize| #[trigger]
                    blocks.contains_key(k) ==> places@.contains(k),
        {
            let ghost index = it.index();
            insert_ascending(&mut places, *kv.0);
            proof {
                assert(it.seq()[index] == kv);
                assert forall|k: usize|
                    index + 1 == it.seq().len() && #[trigger] blocks.contains_key(
                        k,
                    ) implies places@.contains(k) by {
                    assert(it.seq().contains((&k, &blocks[k])));
                    let j = choose|j: int|
                        0 <= j < it.seq().len() && it.seq()[j] == (&k, &blocks[k]);
                    assert(*it.seq()[j].0 == k);
                }
            }
        }
        places
    }
}

/// Whether numbers come one behind the other.
pub open spec fn ascending(s: Seq<usize>) -> bool {
    forall|i: int, j: int| 0 <= i < j < s.len() ==> s[i] < s[j]
}

/// Puts a number into its place, unless it is there already.
fn insert_ascending(list: &mut Vec<usize>, k: usize)
    requires
        ascending(old(list)@),
    ensures
        ascending(final(list)@),
        forall|j: usize| #[trigger] final(list)@.contains(j) <==> old(list)@.contains(j) || j == k,
{
    let ghost before = list@;
    let mut at: usize = 0;
    while at < list.len() && list[at] < k
        invariant
            list@ == before,
            at <= before.len(),
            forall|i: int| 0 <= i < at ==> before[i] < k,
        decreases before.len() - at,
    {
        at = at + 1;
    }
    if at < list.len() && list[at] == k {
        assert(before[at as int] == k);
        return;
    }
    list.insert(at, k);
    proof {
        let now = list@;
        assert(now[at as int] == k);
        assert forall|i: int, j: int| 0 <= i < j < now.len() implies now[i] < now[j] by {
            let a = if i < at { i } else { i - 1 };
            let b = if j < at { j } else { j - 1 };
            if j == at {
                assert(now[i] == before[i]);
            } else if i == at {
                assert(now[j] == before[b]);
                assert(at == b || before[at as int] < before[b]);
            } else {
                assert(now[i] == before[a] && now[j] == before[b]);
            }
        }
        assert forall|j: usize| #[trigger] now.contains(j) <==> before.contains(j) || j == k by {
            if now.contains(j) && j != k {
                let i = choose|i: int| 0 <= i < now.len() && now[i] == j;
                assert(before[if i < at { i } else { i - 1 }] == j);
            }
            if before.contains(j) {
                let i = choose|i: int| 0 <= i < before.len() && before[i] == j;
                assert(now[if i < at { i } else { i + 1 }] == j);
            }
        }
    }
}

/// The fragments of the allocation map at byte `p`, of the zone whose map begins at
/// byte `zone_start`, and the byte behind it.
pub open spec fn fragments_at(
    s: Seq<u8>,
    p: int,
    zone_start: int,
    params: AllocationParsingParams,
) -> Result<(Map<usize, FragmentBlock>, int), CauseView> {
    match blocks_at(s, 8 * p, params.mapped_space_in_alloc_units as nat, params) {
        Err(cause) => Err(cause),
        Ok((blocks, end)) => {
            let read = by_position(blocks);
            if params.free_link == 0 {
                Ok((read, (end + 7) / 8))
            } else {
                match walked(read, zone_start, params.free_link) {
                    (marked, None) => Ok((marked, (end + 7) / 8)),
                    (_, Some(fault)) => Err(CauseView::Fault(fault)),
                }
            }
        },
    }
}

/// The allocation map at byte `p`, of the zone whose map begins at byte `zone_start`,
/// and the byte behind it.
pub open spec fn map_at(
    s: Seq<u8>,
    p: int,
    zone_start: int,
    params: AllocationParsingParams,
) -> Result<(AllocationMapView, int), CauseView> {
    match fragments_at(s, p, zone_start, params) {
        Err(cause) => Err(cause),
        Ok((fragments, end)) => if can_be_ordered(fragments, params) {
            Ok(
                (
                    AllocationMapView { fragments, object_regions: object_map(fragments, params) },
                    end,
                ),
            )
        } else {
            Err(CauseView::Defect(Defect::Geometry))
        },
    }
}

/// One more block is one more region of its own object only, and of none if it is free
/// space.
proof fn lemma_one_more_block(blocks: Map<usize, FragmentBlock>, k: usize, block: FragmentBlock)
    requires
        !blocks.contains_key(k),
    ensures
        forall|region: Range<usize>, id: FragmentId| #[trigger]
            is_region_of(blocks.insert(k, block), region, id) <==> is_region_of(
                blocks,
                region,
                id,
            ) || (id == block.id && !block.free_space && region == block.disk_region),
{
    let now = blocks.insert(k, block);
    assert forall|region: Range<usize>, id: FragmentId| #[trigger]
        is_region_of(now, region, id) <==> is_region_of(blocks, region, id) || (id == block.id
        && !block.free_space && region == block.disk_region) by {
        if is_region_of(now, region, id) {
            let k2 = choose|k2: usize| #[trigger]
                belongs_to(now, k2, id) && now[k2].disk_region == region;
            if k2 != k {
                assert(belongs_to(blocks, k2, id));
            }
        }
        if is_region_of(blocks, region, id) {
            let k2 = choose|k2: usize| #[trigger]
                belongs_to(blocks, k2, id) && blocks[k2].disk_region == region;
            assert(belongs_to(now, k2, id));
        }
        if id == block.id && !block.free_space && region == block.disk_region {
            assert(belongs_to(now, k, id));
        }
    }
}

/// One more free block gives no disc object its first fragment.
proof fn lemma_free_block_in_no_object(
    blocks: Map<usize, FragmentBlock>,
    k: usize,
    block: FragmentBlock,
)
    requires
        !blocks.contains_key(k),
        block.free_space,
    ensures
        forall|id: FragmentId| #[trigger]
            on_disc(blocks.insert(k, block), id) <==> on_disc(blocks, id),
{
    let now = blocks.insert(k, block);
    assert forall|id: FragmentId| #[trigger] on_disc(now, id) <==> on_disc(blocks, id) by {
        assert forall|k2: usize| #[trigger] belongs_to(now, k2, id) <==> belongs_to(
            blocks,
            k2,
            id,
        ) by {}
        if on_disc(blocks, id) {
            let k2 = choose|k2: usize| belongs_to(blocks, k2, id);
            assert(belongs_to(now, k2, id));
        }
    }
}

/// The first fragment of one more disc object leaves every object with one fragment.
proof fn lemma_still_one_part(
    blocks: Map<usize, FragmentBlock>,
    k: usize,
    block: FragmentBlock,
    regions: Seq<Range<usize>>,
    params: AllocationParsingParams,
)
    requires
        one_part_each(blocks),
        !blocks.contains_key(k),
        regions.len() == 0,
        lists_regions(regions, blocks, block.id, params),
    ensures
        one_part_each(blocks.insert(k, block)),
{
    let now = blocks.insert(k, block);
    assert forall|a: usize, b: usize, id: FragmentId| #[trigger]
        belongs_to(now, a, id) && #[trigger] belongs_to(now, b, id) implies a == b by {
        if id == block.id {
            assert forall|other: usize| other != k implies !#[trigger] belongs_to(now, other, id) by {
                if belongs_to(now, other, id) {
                    assert(belongs_to(blocks, other, id));
                    assert(is_region_of(blocks, blocks[other].disk_region, id));
                    assert(regions.contains(blocks[other].disk_region));
                }
            }
        } else {
            assert(belongs_to(blocks, a, id) && belongs_to(blocks, b, id));
        }
    }
}

/// Puts a region where the search meets it.
fn insert_in_search_order(
    list: &mut Vec<Range<usize>>,
    region: Range<usize>,
    id: FragmentId,
    params: &AllocationParsingParams,
)
    requires
        params.sizes_fit(),
        old(list)@.len() > 0 ==> params.orders_fragments(),
        in_search_order(old(list)@, id, *params),
        forall|i: int| 0 <= i < old(list)@.len() ==> (#[trigger] old(list)@[i]).start != region.start,
    ensures
        in_search_order(final(list)@, id, *params),
        forall|other: Range<usize>| #[trigger]
            final(list)@.contains(other) <==> old(list)@.contains(other) || other == region,
{
    let total: usize = list.len();
    let distance: u64 = if total > 0 {
        params.distance_from_start(id, region.start)
    } else {
        0
    };
    let mut at: usize = 0;
    let mut found: bool = false;
    while at < total && !found
        invariant
            params.sizes_fit(),
            total > 0 ==> params.orders_fragments(),
            list@ == old(list)@,
            in_search_order(list@, id, *params),
            at <= total == list@.len(),
            total > 0 ==> distance == params.search_distance(id, region.start),
            forall|i: int| 0 <= i < list@.len() ==> (#[trigger] list@[i]).start != region.start,
            forall|i: int| 0 <= i < at ==> met_before(#[trigger] list@[i], region, id, *params),
            found ==> at < list@.len() && met_before(region, list@[at as int], id, *params),
        decreases total - at, (if found { 0int } else { 1int }),
    {
        let other: u64 = params.distance_from_start(id, list[at].start);
        if other < distance || (other == distance && list[at].start < region.start) {
            at = at + 1;
        } else {
            assert(list@[at as int].start != region.start);
            found = true;
        }
    }
    let ghost before = list@;
    proof {
        assert forall|i: int| at <= i < before.len() implies met_before(
            region,
            #[trigger] before[i],
            id,
            *params,
        ) by {
            if i > at {
                assert(met_before(before[at as int], before[i], id, *params));
            }
        }
    }
    list.insert(at, region);
    proof {
        let now = list@;
        assert forall|i: int, j: int| 0 <= i < j < now.len() implies met_before(
            #[trigger] now[i],
            #[trigger] now[j],
            id,
            *params,
        ) by {
            let a = if i < at { i } else { i - 1 };
            let b = if j < at { j } else { j - 1 };
            if i != at {
                assert(now[i] == before[a]);
            }
            if j != at {
                assert(now[j] == before[b]);
            }
        }
        assert forall|other: Range<usize>| #[trigger] now.contains(other) <==> before.contains(
            other,
        ) || other == region by {
            if now.contains(other) && other != region {
                let i = choose|i: int| 0 <= i < now.len() && now[i] == other;
                assert(before[if i < at { i } else { i - 1 }] == other);
            }
            if before.contains(other) {
                let i = choose|i: int| 0 <= i < before.len() && before[i] == other;
                assert(now[if i < at { i } else { i + 1 }] == other);
            }
            assert(now[at as int] == region);
        }
    }
}

/// There is only one list of the regions of a disc object in search order.
pub proof fn lemma_regions_unique(
    a: Seq<Range<usize>>,
    b: Seq<Range<usize>>,
    id: FragmentId,
    params: AllocationParsingParams,
)
    requires
        in_search_order(a, id, params),
        in_search_order(b, id, params),
        forall|region: Range<usize>| #[trigger] a.contains(region) <==> b.contains(region),
    ensures
        a == b,
    decreases a.len(),
{
    if a.len() == 0 {
        if b.len() > 0 {
            assert(b.contains(b[0]));
            assert(a.contains(b[0]));
        }
        assert(a =~= b);
    } else {
        assert(a.contains(a[0]));
        let i = choose|i: int| 0 <= i < b.len() && b[i] == a[0];
        assert(b.contains(b[0]));
        assert(a.contains(b[0]));
        let j = choose|j: int| 0 <= j < a.len() && a[j] == b[0];
        if i > 0 && j > 0 {
            assert(met_before(b[0], b[i], id, params));
            assert(met_before(a[0], a[j], id, params));
        }
        let (x, y) = (a.drop_first(), b.drop_first());
        lemma_rest_of_regions(a, id, params);
        lemma_rest_of_regions(b, id, params);
        assert forall|region: Range<usize>| #[trigger] x.contains(region) <==> y.contains(
            region,
        ) by {
            assert(a.contains(region) <==> b.contains(region));
        }
        lemma_regions_unique(x, y, id, params);
        assert(a =~= seq![a[0]] + x);
        assert(b =~= seq![b[0]] + y);
    }
}

/// What is left of a list in search order is in search order, and holds all but the
/// first region.
proof fn lemma_rest_of_regions(
    regions: Seq<Range<usize>>,
    id: FragmentId,
    params: AllocationParsingParams,
)
    requires
        in_search_order(regions, id, params),
        regions.len() > 0,
    ensures
        in_search_order(regions.drop_first(), id, params),
        forall|region: Range<usize>| #[trigger]
            regions.drop_first().contains(region) <==> regions.contains(region) && region
                != regions[0],
{
    let rest = regions.drop_first();
    assert forall|i: int, j: int| 0 <= i < j < rest.len() implies met_before(
        #[trigger] rest[i],
        #[trigger] rest[j],
        id,
        params,
    ) by {
        assert(rest[i] == regions[i + 1] && rest[j] == regions[j + 1]);
    }
    assert forall|region: Range<usize>| #[trigger] rest.contains(region) <==> regions.contains(
        region,
    ) && region != regions[0] by {
        if rest.contains(region) {
            let i = choose|i: int| 0 <= i < rest.len() && rest[i] == region;
            assert(regions[i + 1] == region);
            assert(met_before(regions[0], regions[i + 1], id, params));
        }
        if regions.contains(region) && region != regions[0] {
            let i = choose|i: int| 0 <= i < regions.len() && regions[i] == region;
            assert(rest[i - 1] == region);
        }
    }
}

/// The list of the regions of a disc object is the one that its fragments give.
pub proof fn lemma_regions_of(
    regions: Seq<Range<usize>>,
    blocks: Map<usize, FragmentBlock>,
    id: FragmentId,
    params: AllocationParsingParams,
)
    requires
        lists_regions(regions, blocks, id, params),
    ensures
        regions_of(blocks, id, params) == regions,
{
    let other = regions_of(blocks, id, params);
    assert(lists_regions(other, blocks, id, params));
    assert forall|region: Range<usize>| #[trigger] other.contains(region) <==> regions.contains(
        region,
    ) by {
        assert(regions.contains(region) <==> is_region_of(blocks, region, id));
    }
    lemma_regions_unique(other, regions, id, params);
}

/// A region can be put into a list in search order where the search meets it.
proof fn lemma_room_for_region(
    regions: Seq<Range<usize>>,
    region: Range<usize>,
    id: FragmentId,
    params: AllocationParsingParams,
) -> (longer: Seq<Range<usize>>)
    requires
        in_search_order(regions, id, params),
        forall|i: int| 0 <= i < regions.len() ==> (#[trigger] regions[i]).start != region.start,
    ensures
        in_search_order(longer, id, params),
        forall|other: Range<usize>| #[trigger]
            longer.contains(other) <==> regions.contains(other) || other == region,
    decreases regions.len(),
{
    if regions.len() == 0 || met_before(region, regions[0], id, params) {
        let longer = seq![region] + regions;
        assert forall|i: int, j: int| 0 <= i < j < longer.len() implies met_before(
            #[trigger] longer[i],
            #[trigger] longer[j],
            id,
            params,
        ) by {
            assert(longer[j] == regions[j - 1]);
            if i > 0 {
                assert(longer[i] == regions[i - 1]);
            } else if j > 1 {
                assert(met_before(regions[0], regions[j - 1], id, params));
            }
        }
        lemma_in_front(region, regions);
        longer
    } else {
        let rest = regions.drop_first();
        lemma_rest_of_regions(regions, id, params);
        assert forall|i: int| 0 <= i < rest.len() implies (#[trigger] rest[i]).start
            != region.start by {
            assert(rest[i] == regions[i + 1]);
        }
        let more = lemma_room_for_region(rest, region, id, params);
        let longer = seq![regions[0]] + more;
        assert(regions[0].start != region.start);
        assert forall|i: int, j: int| 0 <= i < j < longer.len() implies met_before(
            #[trigger] longer[i],
            #[trigger] longer[j],
            id,
            params,
        ) by {
            assert(longer[j] == more[j - 1]);
            if i > 0 {
                assert(longer[i] == more[i - 1]);
            } else {
                assert(more.contains(more[j - 1]));
                if more[j - 1] != region {
                    assert(rest.contains(more[j - 1]));
                    let k = choose|k: int| 0 <= k < rest.len() && rest[k] == more[j - 1];
                    assert(met_before(regions[0], regions[k + 1], id, params));
                }
            }
        }
        lemma_in_front(regions[0], more);
        lemma_in_front(regions[0], rest);
        assert(regions =~= seq![regions[0]] + rest);
        assert forall|other: Range<usize>| #[trigger] longer.contains(other) <==> regions.contains(
            other,
        ) || other == region by {
            assert(more.contains(other) <==> rest.contains(other) || other == region);
        }
        longer
    }
}

/// What a list holds that has one more region in front.
proof fn lemma_in_front(region: Range<usize>, regions: Seq<Range<usize>>)
    ensures
        forall|other: Range<usize>| #[trigger]
            (seq![region] + regions).contains(other) <==> regions.contains(other) || other
                == region,
{
    let longer = seq![region] + regions;
    assert forall|other: Range<usize>| #[trigger] longer.contains(other) <==> regions.contains(
        other,
    ) || other == region by {
        if longer.contains(other) && other != region {
            let i = choose|i: int| 0 <= i < longer.len() && longer[i] == other;
            assert(regions[i - 1] == other);
        }
        if regions.contains(other) {
            let i = choose|i: int| 0 <= i < regions.len() && regions[i] == other;
            assert(longer[i + 1] == other);
        }
        assert(longer[0] == region);
    }
}

/// The regions of a disc object can be listed in search order.
proof fn lemma_regions_exist(
    blocks: Map<usize, FragmentBlock>,
    id: FragmentId,
    params: AllocationParsingParams,
) -> (regions: Seq<Range<usize>>)
    requires
        blocks.dom().finite(),
        starts_differ(blocks),
    ensures
        lists_regions(regions, blocks, id, params),
    decreases blocks.dom().len(),
{
    if blocks.dom().len() == 0 {
        let regions = Seq::<Range<usize>>::empty();
        assert forall|region: Range<usize>| #[trigger] regions.contains(region) <==> is_region_of(
            blocks,
            region,
            id,
        ) by {
            if is_region_of(blocks, region, id) {
                let k = choose|k: usize| #[trigger]
                    belongs_to(blocks, k, id) && blocks[k].disk_region == region;
                assert(blocks.dom().contains(k));
            }
        }
        regions
    } else {
        let k = blocks.dom().choose();
        let block = blocks[k];
        let rest = blocks.remove(k);
        assert(rest.insert(k, block) =~= blocks);
        assert(starts_differ(rest)) by {
            assert forall|a: usize, b: usize|
                #![trigger rest.contains_key(a), rest.contains_key(b)]
                rest.contains_key(a) && rest.contains_key(b) && a
                    != b implies rest[a].disk_region.start != rest[b].disk_region.start by {
                assert(blocks.contains_key(a) && blocks.contains_key(b));
            }
        }
        let regions = lemma_regions_exist(rest, id, params);
        lemma_one_more_block(rest, k, block);
        if belongs_to(blocks, k, id) {
            assert forall|i: int| 0 <= i < regions.len() implies (#[trigger] regions[i]).start
                != block.disk_region.start by {
                assert(regions.contains(regions[i]));
                assert(is_region_of(rest, regions[i], id));
                let k2 = choose|k2: usize| #[trigger]
                    belongs_to(rest, k2, id) && rest[k2].disk_region == regions[i];
                assert(blocks.contains_key(k2) && blocks.contains_key(k));
            }
            let longer = lemma_room_for_region(regions, block.disk_region, id, params);
            assert forall|region: Range<usize>| #[trigger]
                longer.contains(region) <==> is_region_of(blocks, region, id) by {
                assert(regions.contains(region) <==> is_region_of(rest, region, id));
            }
            longer
        } else {
            assert forall|region: Range<usize>| #[trigger]
                regions.contains(region) <==> is_region_of(blocks, region, id) by {
                assert(regions.contains(region) <==> is_region_of(rest, region, id));
            }
            regions
        }
    }
}

/// Every disc object with a fragment has its regions listed, all of them and in search
/// order, and no other disc object has.
pub proof fn lemma_object_map(
    blocks: Map<usize, FragmentBlock>,
    id: FragmentId,
    params: AllocationParsingParams,
)
    requires
        blocks.dom().finite(),
        starts_differ(blocks),
    ensures
        object_map(blocks, params).contains_key(id) <==> on_disc(blocks, id),
        lists_regions(regions_of(blocks, id, params), blocks, id, params),
{
    let regions = lemma_regions_exist(blocks, id, params);
    lemma_regions_of(regions, blocks, id, params);
}

/// The first block for a number is there where some block has the number. It has the
/// number, is not free space unless all blocks with the number are, and lies before all
/// others of which that holds.
pub proof fn lemma_first_block(blocks: Map<usize, FragmentBlock>, id: FragmentId)
    ensures
        first_block(blocks, id) is Some <==> has_number(blocks, id),
        first_block(blocks, id) matches Some(block) ==> exists|k: usize| #[trigger]
            is_first_block(blocks, id, k) && blocks[k] == block,
{
    if on_disc(blocks, id) {
        let k = choose|k: usize| belongs_to(blocks, k, id);
        lemma_least_block(blocks, id, k);
    } else if has_number(blocks, id) {
        let k = choose|k: usize| #[trigger] blocks.contains_key(k) && blocks[k].id == id;
        lemma_least_block(blocks, id, k);
    }
    if exists|k: usize| is_first_block(blocks, id, k) {
        let k = choose|k: usize| is_first_block(blocks, id, k);
        assert(is_first_block(blocks, id, k) && stands_for(blocks, k, id));
        assert(blocks.contains_key(k));
    }
}

proof fn lemma_least_block(blocks: Map<usize, FragmentBlock>, id: FragmentId, k: usize)
    requires
        stands_for(blocks, k, id),
    ensures
        exists|least: usize| is_first_block(blocks, id, least),
    decreases k,
{
    if exists|other: usize| other < k && #[trigger] stands_for(blocks, other, id) {
        let other = choose|other: usize| other < k && #[trigger] stands_for(blocks, other, id);
        lemma_least_block(blocks, id, other);
    } else {
        assert(is_first_block(blocks, id, k));
    }
}

/// Where the disc is one zone, the search for a disc object starts at the beginning of
/// the disc, and the first region that it meets is that of the first block.
pub proof fn lemma_first_region(
    blocks: Map<usize, FragmentBlock>,
    id: FragmentId,
    params: AllocationParsingParams,
)
    requires
        blocks.dom().finite(),
        starts_by_position(blocks, params),
        params.zone_size == params.total_disk_size,
        params.total_disk_size > 0,
        forall|k: usize| #[trigger]
            blocks.contains_key(k) ==> blocks[k].disk_region.start < params.total_disk_size,
    ensures
        on_disc(blocks, id) <==> object_map(blocks, params).contains_key(id),
        on_disc(blocks, id) ==> {
            let regions = object_map(blocks, params)[id];
            &&& regions.len() > 0
            &&& first_block(blocks, id) matches Some(block) && regions[0] == block.disk_region
        },
{
    lemma_starts_differ(blocks, params);
    lemma_object_map(blocks, id, params);
    lemma_first_block(blocks, id);
    if on_disc(blocks, id) {
        let used = choose|k: usize| belongs_to(blocks, k, id);
        assert(blocks.contains_key(used));
        let block = first_block(blocks, id)->0;
        let k = choose|k: usize| #[trigger] is_first_block(blocks, id, k) && blocks[k] == block;
        assert(stands_for(blocks, k, id));
        let regions = regions_of(blocks, id, params);
        assert(belongs_to(blocks, k, id));
        assert(is_region_of(blocks, block.disk_region, id));
        assert(regions.contains(block.disk_region));
        let j = choose|j: int| 0 <= j < regions.len() && regions[j] == block.disk_region;
        if j > 0 {
            assert(met_before(regions[0], regions[j], id, params));
            assert(regions.contains(regions[0]));
            assert(is_region_of(blocks, regions[0], id));
            let k2 = choose|k2: usize| #[trigger]
                belongs_to(blocks, k2, id) && blocks[k2].disk_region == regions[0];
            assert(stands_for(blocks, k2, id));
            lemma_distance_on_one_zone(id, regions[0].start, params);
            lemma_distance_on_one_zone(id, regions[j].start, params);
            let (x, y) = (k - ALLOCATION_MAP_START_IN_BITS, k2 - ALLOCATION_MAP_START_IN_BITS);
            assert(x * params.unit() <= y * params.unit()) by (nonlinear_arith)
                requires
                    x <= y,
            ;
        }
    }
}

/// On a disc of one zone the search goes by the order of the disc.
proof fn lemma_distance_on_one_zone(id: FragmentId, start: usize, params: AllocationParsingParams)
    requires
        params.zone_size == params.total_disk_size,
        start < params.total_disk_size,
    ensures
        params.search_distance(id, start) == start,
{
    let size = params.total_disk_size as int;
    let home = id as int / params.ids_per_zone as int;
    assert(start - params.search_start(id) == size * (-home) + start) by (nonlinear_arith)
        requires
            params.search_start(id) == home * params.zone_size,
            params.zone_size == size,
    ;
    vstd::arithmetic::div_mod::lemma_mod_multiples_vanish(-home, start as int, size);
    vstd::arithmetic::div_mod::lemma_small_mod(start as nat, size as nat);
}

/// Blocks at their places are finitely many, begin before `end`, and their fragments begin
/// where their places say.
proof fn lemma_starts_of_blocks(
    blocks: Seq<FragmentBlock>,
    end: int,
    params: AllocationParsingParams,
)
    requires
        forall|i: int|
            #![trigger blocks[i]]
            0 <= i < blocks.len() ==> {
                &&& blocks[i].position.0 < end
                &&& blocks[i].disk_region.start == (blocks[i].position.0
                    - ALLOCATION_MAP_START_IN_BITS) * params.unit()
            },
    ensures
        by_position(blocks).dom().finite(),
        starts_by_position(by_position(blocks), params),
        forall|k: usize| #[trigger] by_position(blocks).contains_key(k) ==> k < end,
    decreases blocks.len(),
{
    if blocks.len() > 0 {
        let before = blocks.drop_last();
        let last = blocks[blocks.len() - 1];
        assert forall|i: int|
            #![trigger before[i]]
            0 <= i < before.len() implies {
            &&& before[i].position.0 < end
            &&& before[i].disk_region.start == (before[i].position.0
                - ALLOCATION_MAP_START_IN_BITS) * params.unit()
        } by {
            assert(before[i] == blocks[i]);
        }
        lemma_starts_of_blocks(before, end, params);
        let places = by_position(blocks);
        assert forall|k: usize| #[trigger] places.contains_key(k) implies k < end
            && places[k].disk_region.start == (k - ALLOCATION_MAP_START_IN_BITS)
            * params.unit() by {
            if k != last.position.0 {
                assert(by_position(before).contains_key(k));
            }
        }
    }
}

/// The fragments of an allocation map that was read are finitely many, begin where their
/// places say, and begin inside the mapped bits.
pub proof fn lemma_fragments_at(
    s: Seq<u8>,
    p: int,
    zone_start: int,
    params: AllocationParsingParams,
)
    requires
        8 * p >= ALLOCATION_MAP_START_IN_BITS,
        bits_fit(s.len()),
    ensures
        fragments_at(s, p, zone_start, params) matches Ok((fragments, _)) ==> {
            &&& fragments.dom().finite()
            &&& starts_by_position(fragments, params)
            &&& starts_differ(fragments)
            &&& forall|k: usize| #[trigger]
                fragments.contains_key(k) ==> k < 8 * p + params.mapped_space_in_alloc_units
        },
{
    let mapped = params.mapped_space_in_alloc_units as nat;
    lemma_blocks_without_gaps(s, 8 * p, mapped, params);
    lemma_blocks_reach(s, 8 * p, mapped, params);
    if let Ok((fragments, _)) = fragments_at(s, p, zone_start, params) {
        let (blocks, _) = blocks_at(s, 8 * p, mapped, params)->Ok_0;
        lemma_starts_of_blocks(blocks, 8 * p + mapped, params);
        let read = by_position(blocks);
        lemma_walked_keeps(read, zone_start, params.free_link);
        assert(fragments.dom() == read.dom());
        assert(starts_by_position(fragments, params)) by {
            assert forall|k: usize| #[trigger]
                fragments.contains_key(k) implies fragments[k].disk_region.start == (k
                - ALLOCATION_MAP_START_IN_BITS) * params.unit() by {
                assert(read.contains_key(k));
            }
        }
        assert forall|k: usize| #[trigger] fragments.contains_key(k) implies k < 8 * p + mapped by {
            assert(read.contains_key(k));
        }
        lemma_starts_differ(fragments, params);
    }
}

/// An allocation map that was read lists for every disc object the regions of all its
/// fragments, in search order.
pub proof fn lemma_map_lists_objects(
    s: Seq<u8>,
    p: int,
    zone_start: int,
    params: AllocationParsingParams,
    id: FragmentId,
)
    requires
        8 * p >= ALLOCATION_MAP_START_IN_BITS,
        bits_fit(s.len()),
    ensures
        map_at(s, p, zone_start, params) matches Ok((map, _)) ==> {
            &&& map.object_regions.contains_key(id) <==> on_disc(map.fragments, id)
            &&& map.object_regions.contains_key(id) ==> lists_regions(
                map.object_regions[id],
                map.fragments,
                id,
                params,
            )
        },
{
    lemma_fragments_at(s, p, zone_start, params);
    if let Ok((map, _)) = map_at(s, p, zone_start, params) {
        lemma_object_map(map.fragments, id, params);
    }
}

/// A disc object with one fragment has the region of that fragment.
pub proof fn lemma_one_fragment(
    blocks: Map<usize, FragmentBlock>,
    k: usize,
    id: FragmentId,
    params: AllocationParsingParams,
)
    requires
        belongs_to(blocks, k, id),
        forall|other: usize| #[trigger] belongs_to(blocks, other, id) ==> other == k,
    ensures
        object_map(blocks, params).contains_key(id),
        object_map(blocks, params)[id] == seq![blocks[k].disk_region],
{
    let only = seq![blocks[k].disk_region];
    assert forall|region: Range<usize>| #[trigger] only.contains(region) <==> is_region_of(
        blocks,
        region,
        id,
    ) by {
        if region == blocks[k].disk_region {
            assert(only[0] == region);
            assert(belongs_to(blocks, k, id));
        }
    }
    lemma_regions_of(only, blocks, id, params);
}

/// Marking one more block.
proof fn lemma_with_free_push(blocks: Map<usize, FragmentBlock>, places: Seq<usize>, k: usize)
    requires
        blocks.contains_key(k),
    ensures
        with_free(blocks, places.push(k)) == with_free(blocks, places).insert(
            k,
            FragmentBlock { free_space: true, ..with_free(blocks, places)[k] },
        ),
{
    let a = with_free(blocks, places.push(k));
    let b = with_free(blocks, places).insert(
        k,
        FragmentBlock { free_space: true, ..with_free(blocks, places)[k] },
    );
    assert forall|j: usize| #[trigger] places.push(k).contains(j) == (places.contains(j) || j == k) by {
        if places.contains(j) {
            let i = choose|i: int| 0 <= i < places.len() && places[i] == j;
            assert(places.push(k)[i] == j);
        }
        assert(places.push(k)[places.len() as int] == k);
        if places.push(k).contains(j) && j != k {
            let i = choose|i: int| 0 <= i < places.push(k).len() && places.push(k)[i] == j;
            assert(places[i] == j);
        }
    }
    assert(a =~= b);
}

/// Whether each block begins where the one before it ends, in the map and on the
/// disc, and takes as many allocation units on the disc as it takes bits in the map.
pub open spec fn without_gaps(
    blocks: Seq<FragmentBlock>,
    p: int,
    end: int,
    params: AllocationParsingParams,
) -> bool {
    &&& blocks.len() == 0 ==> end == p
    &&& blocks.len() > 0 ==> {
        &&& blocks[0].position.0 == p
        &&& blocks.last().position.0 + blocks.last().map_length == end
    }
    &&& forall|i: int|
        #![trigger blocks[i]]
        0 <= i < blocks.len() ==> {
            let region = blocks[i].disk_region;
            &&& region.start == (blocks[i].position.0 - ALLOCATION_MAP_START_IN_BITS)
                * params.unit()
            &&& region.end - region.start == blocks[i].map_length * params.unit()
            &&& i + 1 < blocks.len() ==> {
                &&& blocks[i + 1].position.0 == blocks[i].position.0 + blocks[i].map_length
                &&& blocks[i + 1].disk_region.start == region.end
            }
        }
}

/// The blocks of an allocation map leave no gaps: each block begins where the one before
/// it ends, and so does its fragment on the disc.
pub proof fn lemma_blocks_without_gaps(
    s: Seq<u8>,
    p: int,
    remaining: nat,
    params: AllocationParsingParams,
)
    requires
        p >= ALLOCATION_MAP_START_IN_BITS,
        bits_fit(s.len()),
    ensures
        blocks_at(s, p, remaining, params) matches Ok((blocks, end)) ==> without_gaps(
            blocks,
            p,
            end,
            params,
        ),
    decreases remaining,
{
    if remaining > 0 {
        if let Ok(block) = block_at(s, p, params) {
            lemma_raw_block(s, p, params.fragment_id_length as nat);
            let length = block.map_length as int;
            let from = p - ALLOCATION_MAP_START_IN_BITS;
            let unit = params.unit() as int;
            assert((from + length) * unit == from * unit + length * unit) by (nonlinear_arith);
            assert(0 <= from * unit && 0 <= length * unit) by (nonlinear_arith)
                requires
                    from >= 0,
                    length >= 0,
                    unit >= 0,
            ;
            let left = if remaining > block.map_length {
                (remaining - block.map_length) as nat
            } else {
                0
            };
            lemma_blocks_without_gaps(s, p + length, left, params);
            if let Ok((more, end)) = blocks_at(s, p + length, left, params) {
                let blocks = seq![block] + more;
                assert forall|i: int|
                    #![trigger blocks[i]]
                    0 <= i < blocks.len() implies {
                    let region = blocks[i].disk_region;
                    &&& region.start == (blocks[i].position.0 - ALLOCATION_MAP_START_IN_BITS)
                        * params.unit()
                    &&& region.end - region.start == blocks[i].map_length * params.unit()
                    &&& i + 1 < blocks.len() ==> {
                        &&& blocks[i + 1].position.0 == blocks[i].position.0 + blocks[i].map_length
                        &&& blocks[i + 1].disk_region.start == region.end
                    }
                } by {
                    if i > 0 {
                        assert(blocks[i] == more[i - 1]);
                    }
                    if i + 1 < blocks.len() {
                        assert(blocks[i + 1] == more[i]);
                    }
                }
                if more.len() > 0 {
                    assert(blocks.last() == more.last());
                }
            }
        }
    }
}

/// The bits that some blocks take together.
pub open spec fn total_length(blocks: Seq<FragmentBlock>) -> int
    decreases blocks.len(),
{
    if blocks.len() == 0 {
        0
    } else {
        blocks[0].map_length + total_length(blocks.drop_first())
    }
}

/// Whether blocks fill `remaining` bits from bit `p` on exactly.
pub open spec fn fills(
    s: Seq<u8>,
    p: int,
    remaining: nat,
    params: AllocationParsingParams,
) -> bool
    decreases remaining,
{
    remaining == 0 || match block_at(s, p, params) {
        Err(_) => false,
        Ok(block) => 0 < block.map_length <= remaining && fills(
            s,
            p + block.map_length,
            (remaining - block.map_length) as nat,
            params,
        ),
    }
}

/// Where blocks fill the mapped bits of an allocation map exactly, it can be read, these
/// blocks are read and nothing behind them, and their lengths add up to the number of
/// the mapped bits.
pub proof fn lemma_filled_map(
    s: Seq<u8>,
    p: int,
    remaining: nat,
    params: AllocationParsingParams,
)
    requires
        fills(s, p, remaining, params),
    ensures
        blocks_at(s, p, remaining, params) matches Ok((blocks, end)) && {
            &&& end == p + remaining
            &&& total_length(blocks) == remaining
        },
    decreases remaining,
{
    if remaining > 0 {
        let block = block_at(s, p, params)->Ok_0;
        let left = (remaining - block.map_length) as nat;
        lemma_filled_map(s, p + block.map_length, left, params);
        let more = blocks_at(s, p + block.map_length, left, params)->Ok_0.0;
        assert((seq![block] + more).drop_first() =~= more);
    }
}

/// Whether the block at `k` takes the given bit.
pub open spec fn takes_bit(blocks: Map<usize, FragmentBlock>, k: usize, bit: int) -> bool {
    blocks.contains_key(k) && k <= bit < k + blocks[k].map_length
}

/// Whether some block takes the given bit.
pub open spec fn assigned(blocks: Map<usize, FragmentBlock>, bit: int) -> bool {
    exists|k: usize| takes_bit(blocks, k, bit)
}

/// Whether the blocks take all bits from `p` up to `end`, each of them once.
pub open spec fn partitions(blocks: Map<usize, FragmentBlock>, p: int, end: int) -> bool {
    &&& forall|bit: int| p <= bit < end ==> #[trigger] assigned(blocks, bit)
    &&& forall|k: usize, bit: int| #[trigger] takes_bit(blocks, k, bit) ==> p <= bit < end
    &&& forall|a: usize, b: usize, bit: int| #[trigger]
        takes_bit(blocks, a, bit) && #[trigger] takes_bit(blocks, b, bit) ==> a == b
}

/// Blocks without gaps take every bit from the first to the last, each of them once.
proof fn lemma_partitions(
    blocks: Seq<FragmentBlock>,
    p: int,
    end: int,
    params: AllocationParsingParams,
)
    requires
        without_gaps(blocks, p, end, params),
        forall|i: int| 0 <= i < blocks.len() ==> 0 < (#[trigger] blocks[i]).map_length,
    ensures
        p <= end,
        partitions(by_position(blocks), p, end),
        filed_by_position(by_position(blocks)),
    decreases blocks.len(),
{
    let places = by_position(blocks);
    if blocks.len() > 0 {
        let before = blocks.drop_last();
        let last = blocks.last();
        let n = before.len() as int;
        let at = last.position.0 as int;
        assert forall|i: int|
            #![trigger before[i]]
            0 <= i < before.len() implies before[i] == blocks[i] by {}
        if n > 0 {
            assert(blocks[n - 1].position.0 + blocks[n - 1].map_length == blocks[n].position.0);
        }
        assert(without_gaps(before, p, at, params)) by {
            assert forall|i: int|
                #![trigger before[i]]
                0 <= i < before.len() implies {
                let region = before[i].disk_region;
                &&& region.start == (before[i].position.0 - ALLOCATION_MAP_START_IN_BITS)
                    * params.unit()
                &&& region.end - region.start == before[i].map_length * params.unit()
                &&& i + 1 < before.len() ==> {
                    &&& before[i + 1].position.0 == before[i].position.0 + before[i].map_length
                    &&& before[i + 1].disk_region.start == region.end
                }
            } by {
                assert(blocks[i] == before[i]);
                if i + 1 < before.len() {
                    assert(blocks[i + 1] == before[i + 1]);
                }
            }
        }
        lemma_partitions(before, p, at, params);
        let shorter = by_position(before);
        if shorter.contains_key(last.position.0) {
            assert(shorter[last.position.0].map_length > 0) by {
                lemma_positive_lengths(before);
            }
            assert(takes_bit(shorter, last.position.0, at));
        }
        assert forall|bit: int| p <= bit < end implies #[trigger] assigned(places, bit) by {
            if bit < at {
                assert(assigned(shorter, bit));
                let k = choose|k: usize| takes_bit(shorter, k, bit);
                assert(takes_bit(places, k, bit));
            } else {
                assert(takes_bit(places, last.position.0, bit));
            }
        }
        assert forall|k: usize, bit: int| #[trigger] takes_bit(places, k, bit) implies p <= bit
            < end by {
            if k != last.position.0 {
                assert(takes_bit(shorter, k, bit));
            }
        }
        assert forall|a: usize, b: usize, bit: int| #[trigger]
            takes_bit(places, a, bit) && #[trigger] takes_bit(places, b, bit) implies a == b by {
            if a != last.position.0 {
                assert(takes_bit(shorter, a, bit));
            }
            if b != last.position.0 {
                assert(takes_bit(shorter, b, bit));
            }
        }
    }
}

/// Blocks found at their places have lengths.
proof fn lemma_positive_lengths(blocks: Seq<FragmentBlock>)
    requires
        forall|i: int| 0 <= i < blocks.len() ==> 0 < (#[trigger] blocks[i]).map_length,
    ensures
        forall|k: usize| #[trigger]
            by_position(blocks).contains_key(k) ==> by_position(blocks)[k].map_length > 0,
    decreases blocks.len(),
{
    if blocks.len() > 0 {
        let before = blocks.drop_last();
        assert forall|i: int| 0 <= i < before.len() implies 0 < (
        #[trigger] before[i]).map_length by {
            assert(before[i] == blocks[i]);
        }
        lemma_positive_lengths(before);
        assert(blocks[blocks.len() - 1].map_length > 0);
        assert forall|k: usize| #[trigger] by_position(blocks).contains_key(k) implies by_position(
            blocks,
        )[k].map_length > 0 by {
            if k != blocks.last().position.0 {
                assert(by_position(before).contains_key(k));
            }
        }
    }
}

/// The blocks that are read have lengths, and reach at least as far as the mapped bits.
proof fn lemma_blocks_reach(s: Seq<u8>, p: int, remaining: nat, params: AllocationParsingParams)
    requires
        p >= 0,
        bits_fit(s.len()),
    ensures
        blocks_at(s, p, remaining, params) matches Ok((blocks, end)) ==> {
            &&& p + remaining <= end
            &&& forall|i: int|
                #![trigger blocks[i]]
                0 <= i < blocks.len() ==> 0 < blocks[i].map_length && blocks[i].position.0 < p
                    + remaining
        },
    decreases remaining,
{
    if remaining > 0 {
        if let Ok(block) = block_at(s, p, params) {
            lemma_raw_block(s, p, params.fragment_id_length as nat);
            let left = if remaining > block.map_length {
                (remaining - block.map_length) as nat
            } else {
                0
            };
            lemma_blocks_reach(s, p + block.map_length, left, params);
            if let Ok((more, end)) = blocks_at(s, p + block.map_length, left, params) {
                let blocks = seq![block] + more;
                assert forall|i: int|
                    #![trigger blocks[i]]
                    0 <= i < blocks.len() implies 0 < blocks[i].map_length && blocks[i].position.0
                    < p + remaining by {
                    if i > 0 {
                        assert(blocks[i] == more[i - 1]);
                    }
                }
            }
        }
    }
}

/// Every bit of an allocation map gives space of the disc to one fragment, and to no
/// other: that holds of every mapped bit, and of no bit behind them where the blocks
/// fill the mapped bits exactly.
pub proof fn lemma_every_bit_assigned(
    s: Seq<u8>,
    p: int,
    zone_start: int,
    params: AllocationParsingParams,
)
    requires
        8 * p >= ALLOCATION_MAP_START_IN_BITS,
        bits_fit(s.len()),
    ensures
        fragments_at(s, p, zone_start, params) matches Ok((fragments, _)) ==> {
            let mapped = params.mapped_space_in_alloc_units;
            &&& exists|end: int| 8 * p + mapped <= end && #[trigger] partitions(fragments, 8 * p, end)
            &&& fills(s, 8 * p, mapped as nat, params) ==> partitions(
                fragments,
                8 * p,
                8 * p + mapped,
            )
        },
{
    let mapped = params.mapped_space_in_alloc_units as nat;
    lemma_blocks_without_gaps(s, 8 * p, mapped, params);
    lemma_blocks_reach(s, 8 * p, mapped, params);
    if let Ok((blocks, end)) = blocks_at(s, 8 * p, mapped, params) {
        lemma_partitions(blocks, 8 * p, end, params);
        if fills(s, 8 * p, mapped, params) {
            lemma_filled_map(s, 8 * p, mapped, params);
        }
        let read = by_position(blocks);
        let marked = walked(read, zone_start, params.free_link).0;
        lemma_walked_keeps(read, zone_start, params.free_link);
        assert forall|k: usize, bit: int| #[trigger]
            takes_bit(marked, k, bit) <==> takes_bit(read, k, bit) by {
            assert(marked.dom().contains(k) == read.dom().contains(k));
        }
        assert(partitions(marked, 8 * p, end)) by {
            assert forall|bit: int| 8 * p <= bit < end implies #[trigger] assigned(
                marked,
                bit,
            ) by {
                assert(assigned(read, bit));
                let k = choose|k: usize| takes_bit(read, k, bit);
                assert(takes_bit(marked, k, bit));
            }
        }
        if let Ok((fragments, _)) = fragments_at(s, p, zone_start, params) {
            assert(fragments == read || fragments == marked);
            assert(partitions(fragments, 8 * p, end));
        }
    }
}

/// Walking the list of free fragments marks the fragments on it, and changes nothing
/// else of any fragment.
pub proof fn lemma_walked_keeps(
    blocks: Map<usize, FragmentBlock>,
    zone_start: int,
    free_link: u16,
)
    ensures
        ({
            let marked = walked(blocks, zone_start, free_link).0;
            let head = free_head(zone_start, free_link);
            let list = if blocks.contains_key(head) {
                free_chain(block_ids(blocks), head).0
            } else {
                Seq::empty()
            };
            &&& marked.dom() == blocks.dom()
            &&& forall|k: usize| #[trigger]
                blocks.contains_key(k) ==> {
                    &&& marked[k].free_space == (blocks[k].free_space || list.contains(k))
                    &&& marked[k].id == blocks[k].id
                    &&& marked[k].map_length == blocks[k].map_length
                    &&& marked[k].position == blocks[k].position
                    &&& marked[k].disk_region == blocks[k].disk_region
                }
        }),
{
    assert(walked(blocks, zone_start, free_link).0.dom() =~= blocks.dom());
}

} // verus!
