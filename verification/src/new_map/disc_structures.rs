//! The map of a disc: what the disc says of itself, and the allocation maps of its
//! zones.

use std::ops::Range;

use vstd::arithmetic::power2::*;
use vstd::prelude::*;

use super::allocation::{
    first_block, has_number, lemma_first_block, lemma_first_region, lemma_fragments_at, map_at,
    AllocationMapView,
};
use super::filesystem::DirEntry;
use super::record::{
    header_at, lemma_for_zone, record_at, record_failure, AllocationParsingParams, DiscRecord,
    Header, DISC_RECORD_SIZE, HEADER_SIZE,
};
use super::util::{
    bits_fit, sector_end, take_rest_of_sector, DiscPosition, FragmentId, InputStream,
};
use super::{bare, Cause, CauseView, Defect, ParseError};

pub use super::allocation::{AllocationMap, FragmentBlock};

verus! {

/// The map of the first zone, which comes with the record that describes the disc.
#[derive(Debug)]
pub struct LeadingMapBlock {
    pub header: Header,
    pub disc_record: DiscRecord,
    pub allocations: AllocationMap,
    /// The rest of the sector.
    pub unused: Vec<u8>,
}

/// A [`LeadingMapBlock`] with the views of its parts.
pub struct LeadingMapBlockView {
    pub header: Header,
    pub disc_record: DiscRecord,
    pub allocations: AllocationMapView,
    pub unused: Seq<u8>,
}

impl Clone for LeadingMapBlock {
    fn clone(&self) -> (copy: LeadingMapBlock)
        ensures
            copy@ == self@,
    {
        LeadingMapBlock {
            header: self.header,
            disc_record: self.disc_record,
            allocations: self.allocations.clone(),
            unused: self.unused.clone(),
        }
    }
}

impl View for LeadingMapBlock {
    type V = LeadingMapBlockView;

    open spec fn view(&self) -> LeadingMapBlockView {
        LeadingMapBlockView {
            header: self.header,
            disc_record: self.disc_record,
            allocations: self.allocations@,
            unused: self.unused@,
        }
    }
}

/// The map of the first zone at byte `p`, and the byte behind it.
pub open spec fn leading_block_at(s: Seq<u8>, p: int, includes_map: bool) -> Result<
    (LeadingMapBlockView, int),
    CauseView,
> {
    let header = header_at(s, p);
    let disc_record = record_at(s, p + HEADER_SIZE);
    if p + HEADER_SIZE > s.len() {
        Err(CauseView::Truncated)
    } else if record_failure(s, p + HEADER_SIZE) is Some {
        Err(record_failure(s, p + HEADER_SIZE)->0)
    } else if !disc_record.can_be_mapped(includes_map) {
        Err(CauseView::Defect(Defect::Geometry))
    } else {
        let params = AllocationParsingParams::for_zone(
            includes_map,
            header.free_link,
            disc_record,
        );
        match map_at(s, p + HEADER_SIZE + DISC_RECORD_SIZE, p, params) {
            Err(cause) => Err(cause),
            Ok((allocations, map_end)) => {
                let end = sector_end(map_end, disc_record.sector_size() as int);
                if end > s.len() {
                    Err(CauseView::Truncated)
                } else {
                    Ok(
                        (
                            LeadingMapBlockView {
                                header,
                                disc_record,
                                allocations,
                                unused: s.subrange(map_end, end),
                            },
                            end,
                        ),
                    )
                }
            },
        }
    }
}

impl LeadingMapBlock {
    /// Whether the parts of the disc objects are listed in their order.
    pub open spec fn regions_in_order(&self, includes_map: bool) -> bool {
        self.allocations.regions_in_order(
            AllocationParsingParams::for_zone(
                includes_map,
                self.header.free_link,
                self.disc_record,
            ),
        )
    }

    /// Reads the map of the first zone.
    pub fn parse(includes_map: bool, input: &mut InputStream<'_>) -> (r: Result<
        LeadingMapBlock,
        ParseError,
    >)
        requires
            old(input).wf(),
            old(input).bits_fit(),
        ensures
            final(input).wf(),
            final(input).data == old(input).data,
            ({
                let expected = leading_block_at(
                    old(input).data@,
                    old(input).pos as int,
                    includes_map,
                );
                match r {
                    Ok(block) => {
                        &&& expected is Ok
                        &&& block@ == expected->Ok_0.0
                        &&& final(input).pos == expected->Ok_0.1
                        &&& block.regions_in_order(includes_map)
                    },
                    Err(e) => expected is Err && e@ == bare(expected->Err_0),
                }
            }),
    {
        let zone_start: usize = input.pos;
        let header = match Header::parse(input) {
            Ok(header) => header,
            Err(e) => {
                return Err(e);
            },
        };
        let disc_record = match DiscRecord::parse(input) {
            Ok(disc_record) => disc_record,
            Err(e) => {
                return Err(e);
            },
        };
        if !disc_record.check_geometry(includes_map) {
            return Err(ParseError::new(Cause::Defect(Defect::Geometry)));
        }
        let params = AllocationParsingParams::new(includes_map, header.free_link, &disc_record);
        let allocations = match AllocationMap::parse(input, zone_start, &params) {
            Ok(allocations) => allocations,
            Err(e) => {
                return Err(e);
            },
        };
        let sector_size: usize = disc_record.sector_size_in_bytes();
        proof {
            lemma_pow2_pos(disc_record.log2_sec_size as nat);
        }
        match take_rest_of_sector(input, sector_size) {
            Some(unused) => Ok(LeadingMapBlock { header, disc_record, allocations, unused }),
            None => Err(ParseError::new(Cause::Truncated)),
        }
    }

    /// The first block of this zone that stands for the number `id`.
    pub fn get_fragment(&self, id: FragmentId) -> (r: Option<&FragmentBlock>)
        ensures
            match r {
                Some(block) => first_block(self@.allocations.fragments, id) == Some(*block),
                None => first_block(self@.allocations.fragments, id) is None,
            },
    {
        self.allocations.get_fragment(id)
    }
}

/// The map of a zone that is not the first one. It is filled up to exactly one sector,
/// the size of which only the record in the first zone tells.
#[derive(Debug)]
pub struct MapBlock {
    pub header: Header,
    pub allocations: AllocationMap,
    /// The rest of the sector.
    pub unused: Vec<u8>,
}

/// A [`MapBlock`] with the views of its parts.
pub struct MapBlockView {
    pub header: Header,
    pub allocations: AllocationMapView,
    pub unused: Seq<u8>,
}

impl Clone for MapBlock {
    fn clone(&self) -> (copy: MapBlock)
        ensures
            copy@ == self@,
    {
        MapBlock {
            header: self.header,
            allocations: self.allocations.clone(),
            unused: self.unused.clone(),
        }
    }
}

impl View for MapBlock {
    type V = MapBlockView;

    open spec fn view(&self) -> MapBlockView {
        MapBlockView {
            header: self.header,
            allocations: self.allocations@,
            unused: self.unused@,
        }
    }
}

/// The map of a zone at byte `p`, and the byte behind it.
pub open spec fn map_block_at(
    s: Seq<u8>,
    p: int,
    includes_map: bool,
    disc: DiscRecord,
) -> Result<(MapBlockView, int), CauseView> {
    let header = header_at(s, p);
    if p + HEADER_SIZE > s.len() {
        Err(CauseView::Truncated)
    } else if !disc.can_be_mapped(includes_map) {
        Err(CauseView::Defect(Defect::Geometry))
    } else {
        let params = AllocationParsingParams::for_zone(includes_map, header.free_link, disc);
        match map_at(s, p + HEADER_SIZE, p, params) {
            Err(cause) => Err(cause),
            Ok((allocations, map_end)) => {
                let end = sector_end(map_end, disc.sector_size() as int);
                if end > s.len() {
                    Err(CauseView::Truncated)
                } else {
                    Ok(
                        (
                            MapBlockView { header, allocations, unused: s.subrange(map_end, end) },
                            end,
                        ),
                    )
                }
            },
        }
    }
}

impl MapBlock {
    /// Reads the map of a zone. The map of the first zone lies before it, so there
    /// are bytes in front of it.
    pub fn parse(input: &mut InputStream<'_>, includes_map: bool, disc: &DiscRecord) -> (r: Result<
        MapBlock,
        ParseError,
    >)
        requires
            old(input).wf(),
            old(input).bits_fit(),
            old(input).pos >= DISC_RECORD_SIZE,
        ensures
            final(input).wf(),
            final(input).data == old(input).data,
            ({
                let expected = map_block_at(
                    old(input).data@,
                    old(input).pos as int,
                    includes_map,
                    *disc,
                );
                match r {
                    Ok(block) => {
                        &&& expected is Ok
                        &&& block@ == expected->Ok_0.0
                        &&& final(input).pos == expected->Ok_0.1
                        &&& block.allocations.regions_in_order(
                            AllocationParsingParams::for_zone(
                                includes_map,
                                block.header.free_link,
                                *disc,
                            ),
                        )
                    },
                    Err(e) => expected is Err && e@ == bare(expected->Err_0),
                }
            }),
    {
        let zone_start: usize = input.pos;
        let header = match Header::parse(input) {
            Ok(header) => header,
            Err(e) => {
                return Err(e);
            },
        };
        if !disc.check_geometry(includes_map) {
            return Err(ParseError::new(Cause::Defect(Defect::Geometry)));
        }
        let params = AllocationParsingParams::new(includes_map, header.free_link, disc);
        let allocations = match AllocationMap::parse(input, zone_start, &params) {
            Ok(allocations) => allocations,
            Err(e) => {
                return Err(e);
            },
        };
        let sector_size: usize = disc.sector_size_in_bytes();
        proof {
            lemma_pow2_pos(disc.log2_sec_size as nat);
        }
        match take_rest_of_sector(input, sector_size) {
            Some(unused) => Ok(MapBlock { header, allocations, unused }),
            None => Err(ParseError::new(Cause::Truncated)),
        }
    }

    /// The first block of this zone that stands for the number `id`.
    pub fn get_fragment(&self, id: FragmentId) -> (r: Option<&FragmentBlock>)
        ensures
            match r {
                Some(block) => first_block(self@.allocations.fragments, id) == Some(*block),
                None => first_block(self@.allocations.fragments, id) is None,
            },
    {
        self.allocations.get_fragment(id)
    }
}

/// The map of a disc, of which there is one block for each zone.
#[derive(Debug)]
pub struct NewMap {
    pub leading_block: LeadingMapBlock,
    /// The blocks of the other zones.
    pub blocks: Vec<MapBlock>,
}

/// A [`NewMap`] with the views of its parts.
pub struct NewMapView {
    pub leading_block: LeadingMapBlockView,
    pub blocks: Seq<MapBlockView>,
}

impl View for NewMap {
    type V = NewMapView;

    open spec fn view(&self) -> NewMapView {
        NewMapView {
            leading_block: self.leading_block@,
            blocks: self.blocks@.map_values(|b: MapBlock| b@),
        }
    }
}

impl Clone for NewMap {
    fn clone(&self) -> (copy: NewMap)
        ensures
            copy@ == self@,
    {
        let mut blocks: Vec<MapBlock> = Vec::new();
        let mut i: usize = 0;
        while i < self.blocks.len()
            invariant
                i <= self.blocks@.len(),
                blocks@.len() == i,
                forall|j: int| 0 <= j < i ==> (#[trigger] blocks@[j])@ == self.blocks@[j]@,
            decreases self.blocks@.len() - i,
        {
            blocks.push(self.blocks[i].clone());
            i = i + 1;
        }
        let copy = NewMap { leading_block: self.leading_block.clone(), blocks };
        assert(copy@.blocks =~= self@.blocks);
        copy
    }
}

/// The map of a format E disc, which has one zone only.
pub open spec fn format_e_map(s: Seq<u8>, p: int) -> Result<(NewMapView, int), CauseView> {
    match leading_block_at(s, p, true) {
        Err(cause) => Err(cause),
        Ok((leading_block, end)) => Ok((NewMapView { leading_block, blocks: Seq::empty() }, end)),
    }
}

/// The first block that stands for the number `id` among those of some zones.
pub open spec fn first_in_blocks(blocks: Seq<MapBlockView>, id: FragmentId) -> Option<FragmentBlock>
    decreases blocks.len(),
{
    if blocks.len() == 0 {
        None
    } else if first_in_blocks(blocks.drop_last(), id) is Some {
        first_in_blocks(blocks.drop_last(), id)
    } else {
        first_block(blocks.last().allocations.fragments, id)
    }
}

/// Whether some zone has a block with the number `id`.
pub open spec fn in_some_zone(map: NewMapView, id: FragmentId) -> bool {
    exists|z: int| 0 <= z < map.zone_count() && has_number((#[trigger] map.zone(z)).fragments, id)
}

/// There is a block for a number exactly where some zone has a block with that number.
pub proof fn lemma_fragment(map: NewMapView, id: FragmentId)
    ensures
        map.fragment(id) is Some <==> in_some_zone(map, id),
{
    lemma_first_block(map.leading_block.allocations.fragments, id);
    lemma_first_in_blocks(map.blocks, id);
    if first_block(map.leading_block.allocations.fragments, id) is Some {
        assert(has_number(map.zone(0).fragments, id));
    }
    if first_in_blocks(map.blocks, id) is Some {
        let i = choose|i: int|
            0 <= i < map.blocks.len() && has_number(
                (#[trigger] map.blocks[i]).allocations.fragments,
                id,
            );
        assert(has_number(map.zone(i + 1).fragments, id));
    }
    if in_some_zone(map, id) {
        let z = choose|z: int|
            0 <= z < map.zone_count() && has_number((#[trigger] map.zone(z)).fragments, id);
        if z > 0 {
            assert(has_number(map.blocks[z - 1].allocations.fragments, id));
        }
    }
}

proof fn lemma_first_in_blocks(blocks: Seq<MapBlockView>, id: FragmentId)
    ensures
        first_in_blocks(blocks, id) is Some <==> exists|i: int|
            0 <= i < blocks.len() && has_number(
                (#[trigger] blocks[i]).allocations.fragments,
                id,
            ),
    decreases blocks.len(),
{
    if blocks.len() > 0 {
        let before = blocks.drop_last();
        let last = blocks.len() - 1;
        lemma_first_in_blocks(before, id);
        lemma_first_block(blocks.last().allocations.fragments, id);
        if first_in_blocks(before, id) is Some {
            let i = choose|i: int|
                0 <= i < before.len() && has_number(
                    (#[trigger] before[i]).allocations.fragments,
                    id,
                );
            assert(has_number(blocks[i].allocations.fragments, id));
        } else if first_in_blocks(blocks, id) is Some {
            assert(has_number(blocks[last].allocations.fragments, id));
        }
        if exists|i: int|
            0 <= i < blocks.len() && has_number(
                (#[trigger] blocks[i]).allocations.fragments,
                id,
            ) {
            let i = choose|i: int|
                0 <= i < blocks.len() && has_number(
                    (#[trigger] blocks[i]).allocations.fragments,
                    id,
                );
            if i < last {
                assert(has_number(before[i].allocations.fragments, id));
            }
        }
    }
}

impl NewMapView {
    /// The first block of the disc that stands for the number `id`.
    pub open spec fn fragment(self, id: FragmentId) -> Option<FragmentBlock> {
        if first_block(self.leading_block.allocations.fragments, id) is Some {
            first_block(self.leading_block.allocations.fragments, id)
        } else {
            first_in_blocks(self.blocks, id)
        }
    }

    /// The size of a sector in bytes.
    pub open spec fn sector_size(self) -> int {
        self.leading_block.disc_record.sector_size() as int
    }

    /// How far behind the beginning of its fragment an object begins.
    pub open spec fn offset_in_fragment(self, address: DiscPosition) -> int {
        address.sector() * self.sector_size()
    }

    /// The part of a file that lies in the first fragment of its disc object: it begins
    /// at the sector of the file, and ends where the file ends, or before that where
    /// the fragment ends.
    pub open spec fn file_region(self, entry: DirEntry) -> Option<(int, int)> {
        match self.fragment(entry.address.fragment_number() as FragmentId) {
            None => None,
            Some(block) => {
                let region = block.disk_region;
                let start = region.start + self.offset_in_fragment(entry.address);
                let end = if region.end <= start + entry.len {
                    region.end as int
                } else {
                    start + entry.len
                };
                Some((start, end))
            },
        }
    }

    /// How many zones there are.
    pub open spec fn zone_count(self) -> int {
        (self.blocks.len() + 1) as int
    }

    /// The allocation map of a zone.
    pub open spec fn zone(self, z: int) -> AllocationMapView {
        if z == 0 {
            self.leading_block.allocations
        } else {
            self.blocks[z - 1].allocations
        }
    }

    /// The zone that a disc object has its home in; the first one where no object has a
    /// home.
    pub open spec fn home_zone(self, id: FragmentId) -> int {
        let record = self.leading_block.disc_record;
        if record.zone_is_countable() && record.objects_per_zone() > 0 {
            (id as int / record.objects_per_zone()) % self.zone_count()
        } else {
            0
        }
    }

    /// The parts of the disc that `n` zones give to a disc object, from the zone `first`
    /// on and around the end of the disc.
    pub open spec fn parts_in_zones(self, id: FragmentId, first: int, n: nat) -> Seq<Range<usize>>
        decreases n,
    {
        if n == 0 {
            Seq::empty()
        } else {
            self.parts_in_zones(id, first, (n - 1) as nat) + parts_of(
                self.zone((first + n - 1) % self.zone_count()),
                id,
            )
        }
    }

    /// The parts of the disc that belong to a disc object, as a search for it meets them:
    /// those in the zone that it has its home in, and then those in the other zones.
    pub open spec fn object_parts(self, id: FragmentId) -> Seq<Range<usize>> {
        self.parts_in_zones(id, self.home_zone(id), self.zone_count() as nat)
    }

    /// The parts of the disc that a file with the number `id` lies in: those of the disc
    /// object, or, where there is free space only, the first block of that.
    pub open spec fn file_parts(self, id: FragmentId) -> Seq<Range<usize>> {
        if self.object_parts(id).len() > 0 {
            self.object_parts(id)
        } else {
            match self.fragment(id) {
                Some(block) => seq![block.disk_region],
                None => Seq::empty(),
            }
        }
    }

    /// The contents of a file: the parts that it lies in, one behind the other, from
    /// the sector of the file on, as long as the file is. Nothing where the object ends
    /// before the file begins, or where a byte of the file lies outside the image.
    pub open spec fn file_contents(self, image: Seq<u8>, entry: DirEntry) -> Option<Seq<u8>> {
        object_bytes(
            image,
            self.file_parts(entry.address.fragment_number() as FragmentId),
            self.offset_in_fragment(entry.address),
            entry.len as int,
        )
    }
}

/// The parts of the disc that one zone gives to a disc object.
pub open spec fn parts_of(allocations: AllocationMapView, id: FragmentId) -> Seq<Range<usize>> {
    if allocations.object_regions.contains_key(id) {
        allocations.object_regions[id]
    } else {
        Seq::empty()
    }
}

/// Where there is one zone only, it gives all parts to a disc object.
pub proof fn lemma_one_zone(map: NewMapView, id: FragmentId)
    requires
        map.zone_count() == 1,
    ensures
        map.object_parts(id) == parts_of(map.leading_block.allocations, id),
{
    reveal_with_fuel(NewMapView::parts_in_zones, 2);
    assert(map.home_zone(id) == 0);
    assert(map.object_parts(id) =~= parts_of(map.leading_block.allocations, id));
}

/// On a format E disc of one zone the first part that a file lies in is the first block
/// for its number.
pub proof fn lemma_first_part(s: Seq<u8>, id: FragmentId)
    requires
        bits_fit(s.len()),
    ensures
        format_e_map(s, 0) matches Ok((map, _)) ==> map.leading_block.disc_record.num_zones == 1
            ==> {
            &&& map.fragment(id) is Some <==> map.file_parts(id).len() > 0
            &&& map.fragment(id) matches Some(block) ==> map.file_parts(id)[0]
                == block.disk_region
        },
{
    if let Ok((map, _)) = format_e_map(s, 0) {
        let record = map.leading_block.disc_record;
        if record.num_zones == 1 {
            let header = map.leading_block.header;
            let params = AllocationParsingParams::for_zone(true, header.free_link, record);
            lemma_for_zone(true, header.free_link, record);
            let p = HEADER_SIZE + DISC_RECORD_SIZE;
            lemma_fragments_at(s, p, 0, params);
            let fragments = map.leading_block.allocations.fragments;
            let mapped = params.mapped_space_in_alloc_units as int;
            let unit = params.unit() as int;
            let space = record.zone_size() - record.sector_size();
            lemma_pow2_pos(record.log2_bytes_per_mapbit as nat);
            lemma_pow2_pos(record.log2_sec_size as nat);
            assert(mapped * unit <= space) by (nonlinear_arith)
                requires
                    mapped == space / unit,
                    unit >= 1,
            ;
            assert forall|k: usize| #[trigger]
                fragments.contains_key(k) implies fragments[k].disk_region.start
                < params.total_disk_size by {
                let from = k - 8 * p;
                assert(from * unit <= mapped * unit) by (nonlinear_arith)
                    requires
                        from <= mapped,
                        unit >= 1,
                ;
            }
            lemma_first_region(fragments, id, params);
            lemma_one_zone(map, id);
        }
    }
}

/// The bytes of a part of the disc.
pub open spec fn part_size(part: Range<usize>) -> int {
    if part.start <= part.end {
        part.end - part.start
    } else {
        0
    }
}

/// `len` bytes of some parts, one behind the other, from byte `off` on, or fewer where
/// the parts end before. Nothing where the parts end before `off`, or where one of the
/// bytes lies outside the image.
pub open spec fn object_bytes(
    image: Seq<u8>,
    parts: Seq<Range<usize>>,
    off: int,
    len: int,
) -> Option<Seq<u8>>
    decreases parts.len(),
{
    if off <= 0 && len <= 0 {
        Some(Seq::empty())
    } else if parts.len() == 0 {
        if off > 0 {
            None
        } else {
            Some(Seq::empty())
        }
    } else {
        let size = part_size(parts[0]);
        let rest = parts.drop_first();
        if off >= size {
            object_bytes(image, rest, off - size, len)
        } else {
            let taken = if len < size - off {
                len
            } else {
                size - off
            };
            let start = parts[0].start + off;
            if start + taken > image.len() {
                None
            } else {
                match object_bytes(image, rest, 0, len - taken) {
                    None => None,
                    Some(more) => Some(image.subrange(start, start + taken) + more),
                }
            }
        }
    }
}

/// The bytes of some parts together.
pub open spec fn object_size(parts: Seq<Range<usize>>) -> int
    decreases parts.len(),
{
    if parts.len() == 0 {
        0
    } else {
        part_size(parts[0]) + object_size(parts.drop_first())
    }
}

/// Where byte `i` of some parts, one behind the other, lies on the disc.
pub open spec fn place_in_object(parts: Seq<Range<usize>>, i: int) -> int
    decreases parts.len(),
{
    if parts.len() == 0 {
        0
    } else if i < part_size(parts[0]) {
        parts[0].start + i
    } else {
        place_in_object(parts.drop_first(), i - part_size(parts[0]))
    }
}

/// Whether byte `j` is the one that lies on the disc where byte `off + j` of some parts
/// does.
pub open spec fn is_byte_of_object(
    bytes: Seq<u8>,
    j: int,
    image: Seq<u8>,
    parts: Seq<Range<usize>>,
    off: int,
) -> bool {
    let place = place_in_object(parts, off + j);
    0 <= place < image.len() && bytes[j] == image[place]
}

/// What is read of an object is as long as was asked for, or ends where the object ends,
/// and each byte of it is the one that lies on the disc where that byte of the object
/// does.
pub proof fn lemma_object_bytes(image: Seq<u8>, parts: Seq<Range<usize>>, off: int, len: int)
    requires
        0 <= off,
        0 <= len,
    ensures
        object_bytes(image, parts, off, len) matches Some(bytes) ==> {
            &&& off <= object_size(parts)
            &&& bytes.len() == if len < object_size(parts) - off {
                len
            } else {
                object_size(parts) - off
            }
            &&& forall|j: int|
                0 <= j < bytes.len() ==> #[trigger] is_byte_of_object(bytes, j, image, parts, off)
        },
    decreases parts.len(),
{
    lemma_object_size(parts);
    if off + len > 0 && parts.len() > 0 {
        let size = part_size(parts[0]);
        let rest = parts.drop_first();
        lemma_object_size(rest);
        if off >= size {
            lemma_object_bytes(image, rest, off - size, len);
            if let Some(bytes) = object_bytes(image, parts, off, len) {
                assert forall|j: int| 0 <= j < bytes.len() implies #[trigger] is_byte_of_object(
                    bytes,
                    j,
                    image,
                    parts,
                    off,
                ) by {
                    assert(is_byte_of_object(bytes, j, image, rest, off - size));
                    assert(off + j - size == off - size + j);
                }
            }
        } else {
            let taken = if len < size - off {
                len
            } else {
                size - off
            };
            let start = parts[0].start + off;
            lemma_object_bytes(image, rest, 0, len - taken);
            if let Some(bytes) = object_bytes(image, parts, off, len) {
                let more = object_bytes(image, rest, 0, len - taken)->0;
                assert(bytes =~= image.subrange(start, start + taken) + more);
                assert forall|j: int| 0 <= j < bytes.len() implies #[trigger] is_byte_of_object(
                    bytes,
                    j,
                    image,
                    parts,
                    off,
                ) by {
                    if j >= taken {
                        assert(is_byte_of_object(more, j - taken, image, rest, 0));
                        assert(off + j - size == 0 + (j - taken));
                    }
                }
            }
        }
    }
}

/// An object has no fewer bytes than none.
proof fn lemma_object_size(parts: Seq<Range<usize>>)
    ensures
        object_size(parts) >= 0,
    decreases parts.len(),
{
    if parts.len() > 0 {
        lemma_object_size(parts.drop_first());
    }
}

/// A file that lies in the first part of its disc object has all of its bytes there.
pub proof fn lemma_in_first_part(image: Seq<u8>, parts: Seq<Range<usize>>, off: int, len: int)
    requires
        parts.len() > 0,
        0 <= off,
        0 <= len,
        parts[0].start + off + len <= parts[0].end <= image.len(),
    ensures
        object_bytes(image, parts, off, len) == Some(
            image.subrange(parts[0].start + off, parts[0].start + off + len),
        ),
{
    let start = parts[0].start + off;
    let expected = image.subrange(start, start + len);
    let size = part_size(parts[0]);
    reveal_with_fuel(object_bytes, 2);
    if off <= 0 && len <= 0 {
        assert(expected =~= Seq::empty());
    } else if off >= size {
        assert(expected =~= Seq::empty());
    } else {
        assert(image.subrange(start, start + len) + Seq::<u8>::empty() =~= expected);
    }
}

impl NewMap {
    /// Whether sectors have a size.
    pub open spec fn wf(&self) -> bool {
        self.leading_block.disc_record.log2_sec_size < 32
    }

    /// The record that describes the disc.
    pub fn get_disc_record(&self) -> (r: &DiscRecord)
        ensures
            *r == self@.leading_block.disc_record,
    {
        &self.leading_block.disc_record
    }

    /// The allocation map of a zone.
    pub fn get_allocation(&self, idx: usize) -> (r: &AllocationMap)
        requires
            idx <= self@.blocks.len(),
        ensures
            r@ == if idx == 0 {
                self@.leading_block.allocations
            } else {
                self@.blocks[idx - 1].allocations
            },
    {
        if idx == 0 {
            &self.leading_block.allocations
        } else {
            &self.blocks[idx - 1].allocations
        }
    }

    /// Reads the map of a format E disc.
    pub fn parse_format_e(input: &mut InputStream<'_>) -> (r: Result<NewMap, ParseError>)
        requires
            old(input).wf(),
            old(input).bits_fit(),
        ensures
            final(input).wf(),
            final(input).data == old(input).data,
            ({
                let expected = format_e_map(old(input).data@, old(input).pos as int);
                match r {
                    Ok(map) => {
                        &&& expected is Ok
                        &&& map@ == expected->Ok_0.0
                        &&& final(input).pos == expected->Ok_0.1
                        &&& map.leading_block.regions_in_order(true)
                        &&& map.wf()
                    },
                    Err(e) => expected is Err && e@ == bare(expected->Err_0),
                }
            }),
    {
        match LeadingMapBlock::parse(true, input) {
            Ok(leading_block) => {
                let map = NewMap { leading_block, blocks: Vec::new() };
                assert(map@.blocks =~= Seq::empty());
                Ok(map)
            },
            Err(e) => Err(e),
        }
    }

    /// The first block of the disc that stands for the number `id`. The first zone comes
    /// first.
    pub fn get_fragment(&self, id: FragmentId) -> (r: Option<&FragmentBlock>)
        ensures
            match r {
                Some(block) => self@.fragment(id) == Some(*block),
                None => self@.fragment(id) is None,
            },
            r is Some <==> in_some_zone(self@, id),
    {
        proof {
            lemma_fragment(self@, id);
        }
        let mut fragment: Option<&FragmentBlock> = self.leading_block.get_fragment(id);
        let total: usize = self.blocks.len();
        let mut i: usize = 0;
        let ghost blocks = self@.blocks;
        while i < total
            invariant
                i <= total == self.blocks@.len(),
                blocks == self@.blocks,
                match fragment {
                    Some(block) => {
                        ||| first_block(self@.leading_block.allocations.fragments, id) == Some(*block)
                        ||| first_block(self@.leading_block.allocations.fragments, id) is None
                            && first_in_blocks(blocks.take(i as int), id) == Some(*block)
                    },
                    None => {
                        &&& first_block(self@.leading_block.allocations.fragments, id) is None
                        &&& first_in_blocks(blocks.take(i as int), id) is None
                    },
                },
            decreases total - i,
        {
            proof {
                assert(blocks.take(i + 1).drop_last() =~= blocks.take(i as int));
            }
            if fragment.is_none() {
                fragment = self.blocks[i].get_fragment(id);
            }
            i = i + 1;
        }
        assert(blocks.take(total as int) =~= blocks);
        fragment
    }

    /// The part of a file that lies in the first fragment of its disc object, if the
    /// object is on the disc.
    pub fn get_file_region(&self, dir_entry: &DirEntry) -> (r: Option<Range<usize>>)
        requires
            self.wf(),
            match self@.file_region(*dir_entry) {
                Some((start, _)) => start <= usize::MAX,
                None => true,
            },
        ensures
            match r {
                Some(region) => self@.file_region(*dir_entry) == Some(
                    (region.start as int, region.end as int),
                ),
                None => self@.file_region(*dir_entry) is None,
            },
            r is Some <==> in_some_zone(self@, dir_entry.address.fragment_number() as FragmentId),
    {
        let position = dir_entry.address;
        match self.get_fragment(position.fragment()) {
            None => None,
            Some(fragment) => {
                let sector_number: u8 = position.sector_idx();
                let sector_size: usize = self.leading_block.disc_record.sector_size_in_bytes();
                let byte_offset: usize = sector_number as usize * sector_size;
                let region = fragment.disk_region();
                let start: usize = region.start + byte_offset;
                let length: usize = dir_entry.len as usize;
                let end: usize = if region.end <= start || region.end - start <= length {
                    region.end
                } else {
                    start + length
                };
                Some(Range { start, end })
            },
        }
    }

    /// The parts of the disc that belong to a disc object, as a search for it meets them.
    pub fn get_object_parts(&self, id: FragmentId) -> (r: Vec<Range<usize>>)
        ensures
            r@ == self@.object_parts(id),
    {
        let mut parts: Vec<Range<usize>> = Vec::new();
        let others: usize = self.blocks.len();
        let ids: usize = self.leading_block.disc_record.countable_ids_per_zone();
        let home: usize = if ids > 0 {
            id as usize / ids
        } else {
            0
        };
        let mut zone: usize = if home <= others {
            home
        } else {
            home % (others + 1)
        };
        let ghost first = self@.home_zone(id);
        let ghost count = self@.zone_count();
        proof {
            if home <= others {
                vstd::arithmetic::div_mod::lemma_small_mod(home as nat, count as nat);
            }
            assert(zone == first);
            vstd::arithmetic::div_mod::lemma_small_mod(first as nat, count as nat);
        }
        let mut i: usize = 0;
        let mut done: bool = false;
        while !done
            invariant
                !done ==> i <= others,
                others == self.blocks@.len(),
                count == others + 1,
                count == self@.zone_count(),
                0 <= first < count,
                !done ==> zone == (first + i) % count,
                parts@ == self@.parts_in_zones(
                    id,
                    first,
                    if done {
                        count as nat
                    } else {
                        i as nat
                    },
                ),
            decreases count - i, (if done { 0int } else { 1int }),
        {
            let ghost before = parts@;
            let ghost n = i + 1;
            append_parts(&mut parts, self.get_allocation(zone), id);
            proof {
                assert(self@.zone(zone as int) == self@.zone((first + n - 1) % count));
                assert(parts@ =~= self@.parts_in_zones(id, first, n as nat));
                lemma_next_zone(first, i as int, count);
            }
            if i == others {
                done = true;
            } else {
                i = i + 1;
                zone = if zone == others {
                    0
                } else {
                    zone + 1
                };
            }
        }
        parts
    }
}

/// The zone behind the last one is the first one.
proof fn lemma_next_zone(first: int, i: int, count: int)
    requires
        0 <= first < count,
        0 <= i < count,
    ensures
        0 <= (first + i) % count < count,
        (first + i + 1) % count == if (first + i) % count == count - 1 {
            0
        } else {
            (first + i) % count + 1
        },
{
    let sum = first + i;
    if sum < count {
        vstd::arithmetic::div_mod::lemma_small_mod(sum as nat, count as nat);
        if sum + 1 < count {
            vstd::arithmetic::div_mod::lemma_small_mod((sum + 1) as nat, count as nat);
        } else {
            vstd::arithmetic::div_mod::lemma_mod_self_0(count);
        }
    } else {
        vstd::arithmetic::div_mod::lemma_mod_multiples_vanish(1, sum - count, count);
        vstd::arithmetic::div_mod::lemma_small_mod((sum - count) as nat, count as nat);
        vstd::arithmetic::div_mod::lemma_mod_multiples_vanish(1, sum + 1 - count, count);
        if sum + 1 - count < count {
            vstd::arithmetic::div_mod::lemma_small_mod((sum + 1 - count) as nat, count as nat);
        }
    }
}

impl NewMap {
    /// The parts of the disc that a file with the number `id` lies in.
    pub fn get_file_parts(&self, id: FragmentId) -> (r: Vec<Range<usize>>)
        ensures
            r@ == self@.file_parts(id),
    {
        let mut parts: Vec<Range<usize>> = self.get_object_parts(id);
        if parts.len() == 0 {
            if let Some(block) = self.get_fragment(id) {
                parts.push(block.disk_region());
            }
            assert(parts@ =~= self@.file_parts(id));
        }
        parts
    }
}

/// Puts the parts that one zone gives to a disc object behind others.
fn append_parts(parts: &mut Vec<Range<usize>>, allocations: &AllocationMap, id: FragmentId)
    ensures
        final(parts)@ == old(parts)@ + parts_of(allocations@, id),
{
    broadcast use vstd::std_specs::hash::group_hash_axioms;

    let ghost before = parts@;
    match allocations.object_regions.get(&id) {
        None => {
            assert(parts@ =~= before + parts_of(allocations@, id));
        },
        Some(regions) => {
            let total: usize = regions.len();
            let mut i: usize = 0;
            while i < total
                invariant
                    i <= total == regions@.len(),
                    parts@ =~= before + regions@.take(i as int),
                decreases total - i,
            {
                parts.push(regions[i].clone());
                i = i + 1;
            }
            assert(regions@.take(total as int) =~= regions@);
        },
    }
}

} // verus!
