//! The map of a format E disc as a plain list of fragments, for those who want to
//! look at the map and not at the files.

use vstd::arithmetic::power2::*;
use vstd::prelude::*;
use vstd::string::*;

use crate::new_map::allocation::free_head;
use crate::new_map::bits::{lemma_raw_block, parse_raw_block, raw_block_at};
use crate::new_map::chain::free_chain;
use crate::new_map::record::{
    acceptable_sector_size, checked_power_of_two, header_at, power_of_two, Header,
    DISC_RECORD_SIZE, HEADER_SIZE,
};
use crate::new_map::util::{
    bit_index, bit_input_wf, bits_fit, le_u16, le_u32, lemma_array_of, make_input, sector_end,
    take_rest_of_sector, u16_at, u32_at, BitInput, BitPosition, InputStream,
};
use crate::new_map::{Defect, STRICT_MODE};
use crate::text::{from_utf8_lossy, lossy_text};
use crate::LoadErrors;

verus! {

/// Why a map could not be read.
#[derive(Debug, Clone, Copy, PartialEq, Eq, Structural)]
pub enum LoadFailure {
    /// The bit stream ended inside the list of fragments.
    Incomplete,
    /// The image ends inside the map.
    Truncated,
    /// The sector size is not one that discs have.
    Mismatch,
    /// The list of free fragments is not in order.
    Load(LoadErrors),
    /// A value that cannot be followed.
    Defect(Defect),
}

/// How many bytes a [`FixedString`] has.
pub const STRING_LEN: usize = 10;

/// A string of a fixed number of bytes.
#[derive(Debug, Clone, Copy)]
pub struct FixedString(pub [u8; 10]);

/// The string whose bytes begin at `p`.
pub open spec fn fixed_string_at(s: Seq<u8>, p: int) -> FixedString {
    choose|name: FixedString| name.0@ == s.subrange(p, p + STRING_LEN)
}

/// The string at `p` has the bytes that stand there.
pub proof fn lemma_fixed_string_at(s: Seq<u8>, p: int)
    requires
        0 <= p,
        p + STRING_LEN <= s.len(),
    ensures
        fixed_string_at(s, p).0@ == s.subrange(p, p + STRING_LEN),
{
    let bytes = s.subrange(p, p + STRING_LEN);
    let name = FixedString(lemma_array_of::<10>(bytes, 10));
    assert(name.0@ =~= bytes);
}

impl FixedString {
    /// Reads the string from the disc.
    pub fn parse(input: &mut InputStream<'_>) -> (r: Result<FixedString, LoadFailure>)
        requires
            old(input).wf(),
        ensures
            final(input).wf(),
            final(input).data == old(input).data,
            match r {
                Ok(name) => {
                    &&& old(input).pos + STRING_LEN <= old(input).data@.len()
                    &&& name.0@ == old(input).data@.subrange(
                        old(input).pos as int,
                        old(input).pos + STRING_LEN,
                    )
                    &&& name == fixed_string_at(old(input).data@, old(input).pos as int)
                    &&& final(input).pos == old(input).pos + STRING_LEN
                },
                Err(e) => {
                    &&& old(input).pos + STRING_LEN > old(input).data@.len()
                    &&& e == LoadFailure::Truncated
                    &&& *final(input) == *old(input)
                },
            },
    {
        let p: usize = input.pos;
        let total: usize = input.data.len();
        if total - p < STRING_LEN {
            return Err(LoadFailure::Truncated);
        }
        let mut bytes: [u8; 10] = [0u8; 10];
        let mut i: usize = 0;
        let ghost s = input.data@;
        while i < STRING_LEN
            invariant
                *input == *old(input),
                s == input.data@,
                p == input.pos,
                i <= STRING_LEN,
                p + STRING_LEN <= total == s.len(),
                forall|j: int| 0 <= j < i ==> bytes@[j] == s[p + j],
            decreases STRING_LEN - i,
        {
            bytes[i] = input.data[p + i];
            i = i + 1;
        }
        input.pos = p + STRING_LEN;
        let name = FixedString(bytes);
        proof {
            assert(name.0@ =~= s.subrange(p as int, p + STRING_LEN));
            let other = fixed_string_at(s, p as int);
            assert forall|j: int| 0 <= j < STRING_LEN implies name.0[j] == other.0[j] by {
                assert(name.0@[j] == other.0@[j]);
            }
            assert(name.0 =~= other.0);
        }
        Ok(name)
    }

    /// How the string is shown: all of its bytes, as text.
    pub fn debug_string(&self) -> (s: String)
        ensures
            s@ == "FixedString("@ + lossy_text(self.0@) + ")"@,
    {
        let mut s = String::new();
        s.append("FixedString(");
        s.append(from_utf8_lossy(self.0.as_slice()).as_str());
        s.append(")");
        assert(s@ =~= "FixedString("@ + lossy_text(self.0@) + ")"@);
        s
    }
}

/// What the disc says of itself.
#[derive(Debug, Clone, Copy)]
pub struct DiscRecord {
    pub log2_sec_size: u8,
    pub secs_per_track: u8,
    pub heads: u8,
    pub density: u8,
    pub idlen: u8,
    pub log2_bytes_per_mapbit: u8,
    pub skew: u8,
    pub boot_options: u8,
    pub low_sector: u8,
    pub num_zones: u8,
    pub zone_spare: u16,
    pub root: u32,
    pub size: u32,
    pub disc_id: u16,
    pub disc_name: FixedString,
    pub disc_type: u32,
}

/// The disc record at `p`.
pub open spec fn record_at(s: Seq<u8>, p: int) -> DiscRecord {
    DiscRecord {
        log2_sec_size: s[p],
        secs_per_track: s[p + 1],
        heads: s[p + 2],
        density: s[p + 3],
        idlen: s[p + 4],
        log2_bytes_per_mapbit: s[p + 5],
        skew: s[p + 6],
        boot_options: s[p + 7],
        low_sector: s[p + 8],
        num_zones: s[p + 9],
        zone_spare: le_u16(s, p + 10),
        root: le_u32(s, p + 12),
        size: le_u32(s, p + 16),
        disc_id: le_u16(s, p + 20),
        disc_name: fixed_string_at(s, p + 22),
        disc_type: le_u32(s, p + 32),
    }
}

/// Why there is no disc record at `p`, if there is none.
pub open spec fn record_failure(s: Seq<u8>, p: int) -> Option<LoadFailure> {
    if p >= s.len() {
        Some(LoadFailure::Truncated)
    } else if !acceptable_sector_size(s[p]) {
        Some(LoadFailure::Mismatch)
    } else if p + DISC_RECORD_SIZE > s.len() {
        Some(LoadFailure::Truncated)
    } else {
        None
    }
}

impl DiscRecord {
    /// The size of a sector in bytes.
    pub open spec fn sector_bytes(self) -> nat {
        pow2(self.log2_sec_size as nat)
    }

    /// The size of a zone in bytes.
    pub open spec fn zone_bytes(self) -> int {
        self.size as int / self.num_zones as int
    }

    /// Whether the map of a zone of this disc can be read: there are zones, the map
    /// fits into the zone that holds it, and sectors and units can be expressed.
    pub open spec fn can_be_read(self, zone_includes_map: bool) -> bool {
        &&& self.num_zones > 0
        &&& self.log2_sec_size < 32
        &&& zone_includes_map ==> self.num_zones * self.sector_bytes() <= self.zone_bytes()
        &&& pow2(self.log2_bytes_per_mapbit as nat) <= usize::MAX
    }

    /// The binary logarithm of the size of an allocation unit.
    pub fn fragment_block_size(&self) -> (r: usize)
        ensures
            r == self.log2_bytes_per_mapbit,
    {
        self.log2_bytes_per_mapbit as usize
    }

    /// The size of a sector in bytes.
    pub fn sector_size(&self) -> (r: usize)
        requires
            self.log2_sec_size < 32,
        ensures
            r == self.sector_bytes(),
    {
        proof {
            lemma2_to64();
            if self.log2_sec_size < 31 {
                lemma_pow2_strictly_increases(self.log2_sec_size as nat, 31);
            }
        }
        power_of_two(self.log2_sec_size)
    }

    /// The size of a zone in bytes.
    pub fn zone_size_in_bytes(&self) -> (r: usize)
        requires
            self.num_zones > 0,
        ensures
            r == self.zone_bytes(),
    {
        (self.size / self.num_zones as u32) as usize
    }

    /// Whether the map of a zone can be read.
    pub fn check_geometry(&self, zone_includes_map: bool) -> (r: bool)
        ensures
            r == self.can_be_read(zone_includes_map),
    {
        if self.num_zones == 0 || self.log2_sec_size >= 32 {
            return false;
        }
        if zone_includes_map {
            let sector: u64 = self.sector_size() as u64;
            let zone: u64 = self.zone_size_in_bytes() as u64;
            proof {
                lemma2_to64();
                if self.log2_sec_size < 31 {
                    lemma_pow2_strictly_increases(self.log2_sec_size as nat, 31);
                }
                assert(self.num_zones * sector <= 255 * 0x8000_0000) by (nonlinear_arith)
                    requires
                        self.num_zones <= 255,
                        sector <= 0x8000_0000,
                ;
            }
            if self.num_zones as u64 * sector > zone {
                return false;
            }
        }
        checked_power_of_two(self.log2_bytes_per_mapbit as usize).is_some()
    }

    /// Reads a disc record.
    pub fn parse(input: &mut InputStream<'_>) -> (r: Result<DiscRecord, LoadFailure>)
        requires
            old(input).wf(),
        ensures
            final(input).wf(),
            final(input).data == old(input).data,
            ({
                let s = old(input).data@;
                let p = old(input).pos as int;
                match r {
                    Ok(record) => {
                        &&& record_failure(s, p) is None
                        &&& record == record_at(s, p)
                        &&& final(input).pos == p + DISC_RECORD_SIZE
                    },
                    Err(e) => {
                        &&& record_failure(s, p) == Some(e)
                        &&& *final(input) == *old(input)
                    },
                }
            }),
    {
        let p: usize = input.pos;
        let left: usize = input.data.len() - p;
        if left == 0 {
            return Err(LoadFailure::Truncated);
        }
        let log2_sec_size: u8 = input.data[p];
        if STRICT_MODE && log2_sec_size != 8 && log2_sec_size != 9 && log2_sec_size != 10 {
            return Err(LoadFailure::Mismatch);
        }
        if left < DISC_RECORD_SIZE {
            return Err(LoadFailure::Truncated);
        }
        input.pos = p + 22;
        let disc_name = match FixedString::parse(input) {
            Ok(name) => name,
            Err(e) => {
                return Err(e);
            },
        };
        let record = DiscRecord {
            log2_sec_size,
            secs_per_track: input.data[p + 1],
            heads: input.data[p + 2],
            density: input.data[p + 3],
            idlen: input.data[p + 4],
            log2_bytes_per_mapbit: input.data[p + 5],
            skew: input.data[p + 6],
            boot_options: input.data[p + 7],
            low_sector: input.data[p + 8],
            num_zones: input.data[p + 9],
            zone_spare: u16_at(input.data, p + 10),
            root: u32_at(input.data, p + 12),
            size: u32_at(input.data, p + 16),
            disc_id: u16_at(input.data, p + 20),
            disc_name,
            disc_type: u32_at(input.data, p + 32),
        };
        input.pos = p + DISC_RECORD_SIZE;
        Ok(record)
    }
}

/// Everything that reading the fragments of a zone takes from elsewhere.
#[derive(Debug, Clone, Copy)]
pub struct AllocationParsingParams {
    pub mapped_space_in_alloc_units: usize,
    pub fragment_id_length: usize,
    pub log_bytes_per_alloc: usize,
    pub sector_size: usize,
    pub free_link: u16,
}

impl AllocationParsingParams {
    /// Parameters that fragments can be read with.
    pub open spec fn wf(self) -> bool {
        pow2(self.log_bytes_per_alloc as nat) <= usize::MAX
    }

    /// Whether these are the parameters for a zone.
    pub open spec fn describes(
        self,
        zone_includes_map: bool,
        free_link: u16,
        disk: DiscRecord,
    ) -> bool {
        let taken = if zone_includes_map {
            (disk.num_zones * disk.sector_bytes()) as int
        } else {
            0
        };
        &&& self.mapped_space_in_alloc_units == (disk.zone_bytes() - taken) / pow2(
            disk.log2_bytes_per_mapbit as nat,
        ) as int
        &&& self.fragment_id_length == disk.idlen
        &&& self.log_bytes_per_alloc == disk.log2_bytes_per_mapbit
        &&& self.sector_size == disk.sector_bytes()
        &&& self.free_link == free_link
    }

    /// The parameters for a zone.
    pub open spec fn for_zone(
        zone_includes_map: bool,
        free_link: u16,
        disk: DiscRecord,
    ) -> AllocationParsingParams {
        let taken = if zone_includes_map {
            (disk.num_zones * disk.sector_bytes()) as int
        } else {
            0
        };
        AllocationParsingParams {
            mapped_space_in_alloc_units: ((disk.zone_bytes() - taken) / pow2(
                disk.log2_bytes_per_mapbit as nat,
            ) as int) as usize,
            fragment_id_length: disk.idlen as usize,
            log_bytes_per_alloc: disk.log2_bytes_per_mapbit as usize,
            sector_size: disk.sector_bytes() as usize,
            free_link,
        }
    }

    /// Collects the parameters for a zone. A zone that holds the map does not map
    /// the sectors that the map takes.
    pub fn new(
        zone_includes_map: bool,
        free_link: u16,
        disk: &DiscRecord,
    ) -> (params: AllocationParsingParams)
        requires
            disk.can_be_read(zone_includes_map),
        ensures
            params.describes(zone_includes_map, free_link, *disk),
            params == AllocationParsingParams::for_zone(zone_includes_map, free_link, *disk),
    {
        let orig_zone_size: usize = disk.zone_size_in_bytes();
        let sector_size: usize = disk.sector_size();
        let zone_size_in_bytes: usize = if zone_includes_map {
            proof {
                assert(disk.num_zones as nat * sector_size as nat <= orig_zone_size);
            }
            orig_zone_size - (disk.num_zones as usize * sector_size)
        } else {
            orig_zone_size
        };
        let unit: usize = power_of_two(disk.log2_bytes_per_mapbit);
        let params = AllocationParsingParams {
            mapped_space_in_alloc_units: zone_size_in_bytes / unit,
            fragment_id_length: disk.idlen as usize,
            log_bytes_per_alloc: disk.log2_bytes_per_mapbit as usize,
            sector_size,
            free_link,
        };
        assert(params.describes(zone_includes_map, free_link, *disk));
        params
    }

    /// The size of a sector in bytes.
    pub fn sector_size(&self) -> (r: usize)
        ensures
            r == self.sector_size,
    {
        self.sector_size
    }
}

/// The parameters for a zone that can be read are what its disc record says.
pub proof fn lemma_for_zone(zone_includes_map: bool, free_link: u16, disk: DiscRecord)
    requires
        disk.can_be_read(zone_includes_map),
    ensures
        AllocationParsingParams::for_zone(zone_includes_map, free_link, disk).describes(
            zone_includes_map,
            free_link,
            disk,
        ),
        AllocationParsingParams::for_zone(zone_includes_map, free_link, disk).wf(),
{
    let zone = disk.zone_bytes() as int;
    assert(0 <= zone <= disk.size) by (nonlinear_arith)
        requires
            zone == disk.size as int / disk.num_zones as int,
            disk.num_zones > 0,
    ;
    lemma2_to64();
    if disk.log2_sec_size < 31 {
        lemma_pow2_strictly_increases(disk.log2_sec_size as nat, 31);
    }
    let unit = pow2(disk.log2_bytes_per_mapbit as nat) as int;
    lemma_pow2_pos(disk.log2_bytes_per_mapbit as nat);
    let taken = if zone_includes_map {
        (disk.num_zones * disk.sector_bytes()) as int
    } else {
        0
    };
    assert(taken >= 0) by (nonlinear_arith)
        requires
            taken == 0 || taken == disk.num_zones * disk.sector_bytes(),
    ;
    let mapped = zone - taken;
    assert(0 <= mapped / unit <= mapped) by (nonlinear_arith)
        requires
            mapped >= 0,
            unit >= 1,
    ;
}

/// One fragment of the disc.
#[derive(Debug, Clone, Copy)]
pub struct FragmentBlock {
    /// The number of the disc object, or the distance to the next free fragment.
    pub id: u16,
    /// Whether this is free space.
    pub free_space: bool,
    /// The bits that the block takes in the map.
    pub total_length: usize,
    /// The bytes that the fragment takes on the disc.
    pub byte_size: usize,
    /// Where the block begins.
    pub position: BitPosition,
}

/// The block at bit `p`. A number of more than 16 bits cannot be held; the stream may end
/// before that shows.
pub open spec fn block_at(s: Seq<u8>, p: int, params: AllocationParsingParams) -> Result<
    FragmentBlock,
    LoadFailure,
> {
    if params.fragment_id_length > 16 {
        if p + 16 < 8 * s.len() {
            Err(LoadFailure::Defect(Defect::Geometry))
        } else {
            Err(LoadFailure::Incomplete)
        }
    } else {
        match raw_block_at(s, p, params.fragment_id_length as nat) {
            None => Err(LoadFailure::Incomplete),
            Some((id, length)) => Ok(
                FragmentBlock {
                    id,
                    free_space: false,
                    total_length: length as usize,
                    byte_size: (length as usize) << params.log_bytes_per_alloc,
                    position: BitPosition(p as usize),
                },
            ),
        }
    }
}

impl FragmentBlock {
    /// Reads one block.
    pub fn parse(input: &mut BitInput<'_>, params: &AllocationParsingParams) -> (r: Result<
        FragmentBlock,
        LoadFailure,
    >)
        requires
            bit_input_wf(*old(input)),
            old(input).0.bits_fit(),
            params.wf(),
        ensures
            bit_input_wf(*final(input)),
            final(input).0.data == old(input).0.data,
            ({
                let expected = block_at(old(input).0.data@, bit_index(*old(input)), *params);
                match r {
                    Ok(block) => {
                        &&& expected == Ok::<FragmentBlock, LoadFailure>(block)
                        &&& bit_index(*final(input)) == bit_index(*old(input)) + block.total_length
                    },
                    Err(e) => {
                        &&& expected == Err::<FragmentBlock, LoadFailure>(e)
                        &&& *final(input) == *old(input)
                    },
                }
            }),
    {
        let begin: BitInput<'_> = *input;
        let total: usize = input.0.data.len();
        if params.fragment_id_length > 16 {
            let place: usize = 8 * input.0.pos + input.1;
            return if place + 16 < 8 * total {
                Err(LoadFailure::Defect(Defect::Geometry))
            } else {
                Err(LoadFailure::Incomplete)
            };
        }
        match parse_raw_block(input, params.fragment_id_length) {
            Err(_) => Err(LoadFailure::Incomplete),
            Ok((id, total_length)) => {
                proof {
                    lemma_raw_block(
                        begin.0.data@,
                        bit_index(begin),
                        params.fragment_id_length as nat,
                    );
                    lemma_shift_fits(params.log_bytes_per_alloc);
                }
                let position = BitPosition(8 * begin.0.pos + begin.1);
                let byte_size: usize = total_length << params.log_bytes_per_alloc;
                Ok(FragmentBlock { id, free_space: false, total_length, byte_size, position })
            },
        }
    }

    /// The same fragment, as free space.
    pub fn as_free(&self) -> (r: FragmentBlock)
        ensures
            r == (FragmentBlock { free_space: true, ..*self }),
    {
        FragmentBlock {
            id: self.id,
            free_space: true,
            total_length: self.total_length,
            byte_size: self.byte_size,
            position: self.position,
        }
    }
}

/// A power of two that can be expressed is a shift that can be made.
pub proof fn lemma_shift_fits(n: usize)
    requires
        pow2(n as nat) <= usize::MAX,
    ensures
        n < usize::BITS,
{
    vstd::layout::unsigned_int_max_values();
    if n > usize::BITS {
        lemma_pow2_strictly_increases(usize::BITS as nat, n as nat);
    }
}

/// The blocks from bit `p` on that `remaining` bits of the map are left for, and
/// the bit behind them. The last block may go on behind the end of the map.
pub open spec fn blocks_at(
    s: Seq<u8>,
    p: int,
    remaining: nat,
    params: AllocationParsingParams,
) -> Result<(Seq<FragmentBlock>, int), LoadFailure>
    decreases remaining,
{
    if remaining == 0 {
        Ok((Seq::empty(), p))
    } else {
        match block_at(s, p, params) {
            Err(e) => Err(e),
            Ok(block) => {
                let left = if remaining > block.total_length && block.total_length > 0 {
                    (remaining - block.total_length) as nat
                } else {
                    0
                };
                match blocks_at(s, p + block.total_length, left, params) {
                    Err(e) => Err(e),
                    Ok((more, end)) => Ok((seq![block] + more, end)),
                }
            },
        }
    }
}

/// Whether block `i` begins at `k`.
pub open spec fn begins_at(blocks: Seq<FragmentBlock>, i: int, k: usize) -> bool {
    0 <= i < blocks.len() && blocks[i].position.0 == k
}

/// The number that the block at each place holds.
pub open spec fn block_ids(blocks: Seq<FragmentBlock>) -> Map<usize, u16> {
    Map::new(
        |k: usize| exists|i: int| begins_at(blocks, i, k),
        |k: usize| blocks[choose|i: int| begins_at(blocks, i, k)].id,
    )
}

/// Whether the blocks come in the order of the disc.
pub open spec fn in_disc_order(blocks: Seq<FragmentBlock>) -> bool {
    forall|i: int, j: int|
        0 <= i < j < blocks.len() ==> (#[trigger] blocks[i]).position.0 < (#[trigger] blocks[j]).position.0
}

/// Whether the places of all blocks leave room for what they point at.
pub open spec fn places_fit(blocks: Seq<FragmentBlock>) -> bool {
    forall|i: int|
        0 <= i < blocks.len() ==> (#[trigger] blocks[i]).position.0 + 0xFFFF <= usize::MAX
}

/// The blocks, with those at the given places as free space.
pub open spec fn with_free(blocks: Seq<FragmentBlock>, places: Seq<usize>) -> Seq<FragmentBlock> {
    blocks.map_values(
        |b: FragmentBlock|
            if places.contains(b.position.0) {
                FragmentBlock { free_space: true, ..b }
            } else {
                b
            },
    )
}

/// The blocks after the list of free fragments of the zone whose map begins at byte
/// `zone_start` has been walked, and what ended the walk early.
pub open spec fn walked(blocks: Seq<FragmentBlock>, zone_start: int, free_link: u16) -> (
    Seq<FragmentBlock>,
    Option<LoadErrors>,
) {
    let head = free_head(zone_start, free_link);
    if !block_ids(blocks).contains_key(head) {
        (blocks, Some(LoadErrors::InvalidFreeLink(free_link)))
    } else {
        let (places, broken) = free_chain(block_ids(blocks), head);
        (
            with_free(blocks, places),
            match broken {
                None => None,
                Some(dest) => Some(
                    LoadErrors::BrokenFreeChain {
                        origin: BitPosition(places.last()),
                        dest_bit_offset: BitPosition(dest),
                    },
                ),
            },
        )
    }
}

/// The blocks at byte `p`, of the zone whose map begins at byte `zone_start`, and the
/// byte behind them.
pub open spec fn map_at(
    s: Seq<u8>,
    p: int,
    zone_start: int,
    params: AllocationParsingParams,
) -> Result<(Seq<FragmentBlock>, int), LoadFailure> {
    match blocks_at(s, 8 * p, params.mapped_space_in_alloc_units as nat, params) {
        Err(e) => Err(e),
        Ok((blocks, end)) => if params.free_link == 0 {
            Ok((blocks, (end + 7) / 8))
        } else {
            match walked(blocks, zone_start, params.free_link) {
                (marked, None) => Ok((marked, (end + 7) / 8)),
                (_, Some(e)) => Err(LoadFailure::Load(e)),
            }
        },
    }
}

/// In the order of the disc, a block holds the number of its place.
proof fn lemma_block_id(blocks: Seq<FragmentBlock>, i: int)
    requires
        in_disc_order(blocks),
        0 <= i < blocks.len(),
    ensures
        block_ids(blocks).contains_key(blocks[i].position.0),
        block_ids(blocks)[blocks[i].position.0] == blocks[i].id,
{
    let k = blocks[i].position.0;
    assert(begins_at(blocks, i, k));
    let j = choose|j: int| begins_at(blocks, j, k);
    assert(begins_at(blocks, j, k));
}

/// One more place of free space.
proof fn lemma_with_free_push(blocks: Seq<FragmentBlock>, places: Seq<usize>, i: int)
    requires
        in_disc_order(blocks),
        0 <= i < blocks.len(),
    ensures
        with_free(blocks, places.push(blocks[i].position.0)) == with_free(blocks, places).update(
            i,
            FragmentBlock { free_space: true, ..blocks[i] },
        ),
{
    let k = blocks[i].position.0;
    let more = places.push(k);
    assert forall|j: int| 0 <= j < blocks.len() implies with_free(blocks, more)[j] == with_free(
        blocks,
        places,
    ).update(i, FragmentBlock { free_space: true, ..blocks[i] })[j] by {
        let at = blocks[j].position.0;
        assert(more.contains(at) <==> places.contains(at) || at == k) by {
            if places.contains(at) {
                let n = choose|n: int| 0 <= n < places.len() && places[n] == at;
                assert(more[n] == at);
            }
            assert(more[places.len() as int] == k);
            if more.contains(at) {
                let n = choose|n: int| 0 <= n < more.len() && more[n] == at;
                if n < places.len() {
                    assert(places[n] == at);
                }
            }
        }
    }
    assert(with_free(blocks, more) =~= with_free(blocks, places).update(
        i,
        FragmentBlock { free_space: true, ..blocks[i] },
    ));
}

/// The fragments of a zone.
#[derive(Debug, Clone)]
pub struct AllocationBytes {
    /// In the order of the disc.
    pub fragments: Vec<FragmentBlock>,
}

impl View for AllocationBytes {
    type V = Seq<FragmentBlock>;

    open spec fn view(&self) -> Seq<FragmentBlock> {
        self.fragments@
    }
}

impl AllocationBytes {
    /// The block that begins at a place.
    fn find(fragments: &Vec<FragmentBlock>, place: usize) -> (r: Option<usize>)
        requires
            in_disc_order(fragments@),
        ensures
            match r {
                Some(i) => begins_at(fragments@, i as int, place),
                None => !block_ids(fragments@).contains_key(place),
            },
    {
        let mut low: usize = 0;
        let mut high: usize = fragments.len();
        while low < high
            invariant
                in_disc_order(fragments@),
                low <= high <= fragments@.len(),
                forall|j: int| 0 <= j < low ==> (#[trigger] fragments@[j]).position.0 < place,
                forall|j: int|
                    high <= j < fragments@.len() ==> place < (#[trigger] fragments@[j]).position.0,
            decreases high - low,
        {
            let middle: usize = low + (high - low) / 2;
            let at: usize = fragments[middle].position.0;
            if at == place {
                return Some(middle);
            } else if at < place {
                low = middle + 1;
            } else {
                high = middle;
            }
        }
        None
    }

    /// Walks the list of free fragments of the zone whose map begins at byte
    /// `zone_start`, and marks each fragment on it as free space. The link counts in
    /// bits from byte 1 of the zone.
    ///
    /// Fails where no fragment begins there, or where a fragment on the list
    /// points at a place where none begins; what has been marked stays marked.
    pub fn walk_free_chain(
        fragments: &mut Vec<FragmentBlock>,
        zone_start: usize,
        free_link: u16,
    ) -> (r: Result<(), LoadErrors>)
        requires
            8 * (zone_start + 1) + free_link <= usize::MAX,
            in_disc_order(old(fragments)@),
            places_fit(old(fragments)@),
        ensures
            ({
                let expected = walked(old(fragments)@, zone_start as int, free_link);
                &&& final(fragments)@ == expected.0
                &&& match r {
                    Ok(_) => expected.1 is None,
                    Err(e) => expected.1 == Some(e),
                }
            }),
    {
        let ghost before = fragments@;
        let ghost ids = block_ids(before);
        let head: usize = 8 * (zone_start + 1) + free_link as usize;
        let mut index: usize = match AllocationBytes::find(fragments, head) {
            Some(i) => i,
            None => {
                return Err(LoadErrors::InvalidFreeLink(free_link));
            },
        };
        let mut cursor: usize = head;
        let mut cursor_id: u16 = fragments[index].id;
        let free: FragmentBlock = fragments[index].as_free();
        fragments.set(index, free);
        let ghost mut places: Seq<usize> = seq![head];
        proof {
            lemma_block_id(before, index as int);
            lemma_with_free_push(before, Seq::empty(), index as int);
            assert(with_free(before, Seq::empty()) =~= before);
            assert(Seq::<usize>::empty().push(head) =~= seq![head]);
            assert(free_chain(ids, head).0 =~= places.drop_last() + free_chain(ids, head).0);
        }
        while cursor_id != 0
            invariant
                before == old(fragments)@,
                in_disc_order(before),
                places_fit(before),
                ids == block_ids(before),
                head == free_head(zone_start as int, free_link),
                ids.contains_key(head),
                begins_at(before, index as int, cursor),
                ids.contains_key(cursor),
                cursor_id == ids[cursor],
                places.len() > 0,
                places.last() == cursor,
                fragments@ == with_free(before, places),
                free_chain(ids, head).0 == places.drop_last() + free_chain(ids, cursor).0,
                free_chain(ids, head).1 == free_chain(ids, cursor).1,
            decreases usize::MAX - cursor,
        {
            let dest: usize = cursor_id as usize + cursor;
            proof {
                lemma_same_places(before, places);
            }
            match AllocationBytes::find(fragments, dest) {
                None => {
                    proof {
                        assert(free_chain(ids, cursor).0 =~= seq![cursor]);
                        assert(places =~= places.drop_last() + seq![cursor]);
                    }
                    return Err(
                        LoadErrors::BrokenFreeChain {
                            origin: BitPosition(cursor),
                            dest_bit_offset: BitPosition(dest),
                        },
                    );
                },
                Some(i) => {
                    index = i;
                    cursor_id = fragments[index].id;
                    let free: FragmentBlock = fragments[index].as_free();
                    proof {
                        assert(before[i as int].position.0 == dest);
                        lemma_block_id(before, i as int);
                        lemma_with_free_push(before, places, i as int);
                        assert(places.push(dest).drop_last() =~= places);
                        assert(places =~= places.drop_last() + seq![cursor]);
                        let more = free_chain(ids, dest).0;
                        assert(free_chain(ids, cursor).0 =~= seq![cursor] + more);
                        assert(places.drop_last() + (seq![cursor] + more) =~= places + more);
                        places = places.push(dest);
                    }
                    fragments.set(index, free);
                    cursor = dest;
                },
            }
        }
        proof {
            assert(free_chain(ids, cursor).0 =~= seq![cursor]);
            assert(places =~= places.drop_last() + seq![cursor]);
        }
        Ok(())
    }
}

/// Marking free space moves no block and changes no number.
proof fn lemma_same_places(blocks: Seq<FragmentBlock>, places: Seq<usize>)
    requires
        in_disc_order(blocks),
    ensures
        in_disc_order(with_free(blocks, places)),
        block_ids(with_free(blocks, places)) == block_ids(blocks),
{
    let marked = with_free(blocks, places);
    assert forall|k: usize, i: int| begins_at(marked, i, k) == begins_at(blocks, i, k) by {}
    assert forall|k: usize|
        block_ids(marked).contains_key(k) == block_ids(blocks).contains_key(k) by {
        if block_ids(marked).contains_key(k) {
            let i = choose|i: int| begins_at(marked, i, k);
            assert(begins_at(blocks, i, k));
        }
        if block_ids(blocks).contains_key(k) {
            let i = choose|i: int| begins_at(blocks, i, k);
            assert(begins_at(marked, i, k));
        }
    }
    assert forall|k: usize| #[trigger] block_ids(blocks).contains_key(k) implies block_ids(marked)[k]
        == block_ids(blocks)[k] by {
        let i = choose|i: int| begins_at(blocks, i, k);
        lemma_block_id(blocks, i);
        lemma_block_id(marked, i);
    }
    assert(block_ids(marked) =~= block_ids(blocks));
}

impl AllocationBytes {
    /// Reads the fragments of the zone whose map begins at byte `zone_start`: first all
    /// blocks, and then the list of free fragments among them, if there is one.
    pub fn parse(
        input: &mut InputStream<'_>,
        zone_start: usize,
        params: &AllocationParsingParams,
    ) -> (r: Result<AllocationBytes, LoadFailure>)
        requires
            old(input).wf(),
            old(input).bits_fit(),
            zone_start < old(input).pos,
            params.wf(),
        ensures
            final(input).wf(),
            final(input).data == old(input).data,
            ({
                let expected = map_at(
                    old(input).data@,
                    old(input).pos as int,
                    zone_start as int,
                    *params,
                );
                match r {
                    Ok(map) => {
                        &&& expected == Ok::<(Seq<FragmentBlock>, int), LoadFailure>(
                            (map@, final(input).pos as int),
                        )
                        &&& in_disc_order(map@)
                    },
                    Err(e) => {
                        &&& expected == Err::<(Seq<FragmentBlock>, int), LoadFailure>(e)
                        &&& *final(input) == *old(input)
                    },
                }
            }),
    {
        let ghost s = input.data@;
        let ghost p = 8 * input.pos as int;
        let ghost asked = params.mapped_space_in_alloc_units as nat;
        let total: usize = input.data.len();
        let mut bits_remaining: usize = params.mapped_space_in_alloc_units;
        let mut fragments: Vec<FragmentBlock> = Vec::new();
        let mut stream: BitInput<'_> = (*input, 0);
        proof {
            if let Ok((all, _)) = blocks_at(s, p, asked, *params) {
                assert(fragments@ + all =~= all);
            }
        }
        while bits_remaining > 0
            invariant
                *input == *old(input),
                s == input.data@,
                p == 8 * input.pos,
                asked == params.mapped_space_in_alloc_units,
                total == s.len(),
                input.bits_fit(),
                params.wf(),
                bit_input_wf(stream),
                stream.0.data == input.data,
                p <= bit_index(stream) <= 8 * total,
                in_disc_order(fragments@),
                places_fit(fragments@),
                forall|i: int|
                    0 <= i < fragments@.len() ==> (#[trigger] fragments@[i]).position.0 < bit_index(
                        stream,
                    ),
                match blocks_at(s, bit_index(stream), bits_remaining as nat, *params) {
                    Err(e) => blocks_at(s, p, asked, *params) == Err::<
                        (Seq<FragmentBlock>, int),
                        LoadFailure,
                    >(e),
                    Ok((more, end)) => blocks_at(s, p, asked, *params) == Ok::<
                        (Seq<FragmentBlock>, int),
                        LoadFailure,
                    >((fragments@ + more, end)),
                },
            decreases bits_remaining,
        {
            let ghost at = bit_index(stream);
            let ghost left = bits_remaining as nat;
            let ghost blocks = fragments@;
            match FragmentBlock::parse(&mut stream, params) {
                Err(e) => {
                    return Err(e);
                },
                Ok(block) => {
                    proof {
                        lemma_raw_block(s, at, params.fragment_id_length as nat);
                        let next = if left > block.total_length {
                            (left - block.total_length) as nat
                        } else {
                            0
                        };
                        if let Ok((more, _)) = blocks_at(
                            s,
                            at + block.total_length,
                            next,
                            *params,
                        ) {
                            assert(blocks + (seq![block] + more) =~= blocks.push(block) + more);
                        }
                    }
                    if bits_remaining > block.total_length {
                        bits_remaining = bits_remaining - block.total_length;
                    } else {
                        bits_remaining = 0;
                    }
                    fragments.push(block);
                },
            }
        }
        let ghost read = fragments@;
        proof {
            assert(read + Seq::<FragmentBlock>::empty() =~= read);
        }
        if params.free_link != 0 {
            match AllocationBytes::walk_free_chain(&mut fragments, zone_start, params.free_link) {
                Ok(_) => {},
                Err(e) => {
                    return Err(LoadFailure::Load(e));
                },
            }
            proof {
                let head = free_head(zone_start as int, params.free_link);
                lemma_same_places(read, free_chain(block_ids(read), head).0);
            }
        }
        input.pos = if stream.1 == 0 {
            stream.0.pos
        } else {
            stream.0.pos + 1
        };
        Ok(AllocationBytes { fragments })
    }
}

/// The map of the first zone, which comes with the record that describes the disc.
#[derive(Debug)]
pub struct LeadingMapBlock {
    pub header: Header,
    pub disc_record: DiscRecord,
    pub allocations: AllocationBytes,
    /// The rest of the sector.
    pub unused: Vec<u8>,
}

/// A [`LeadingMapBlock`] with the views of its parts.
pub struct LeadingMapBlockView {
    pub header: Header,
    pub disc_record: DiscRecord,
    pub allocations: Seq<FragmentBlock>,
    pub unused: Seq<u8>,
}

impl View for LeadingMapBlock {
    type V = LeadingMapBlockView;

    open spec fn view(&self) -> LeadingMapBlockView {
        LeadingMapBlockView {
            header: self.header,
            disc_record: self.disc_record,
            allocations: self.allocations@,
            unused: self.unused@,
        }
    }
}

/// The map of the first zone at byte `p`, and the byte behind it.
pub open spec fn leading_block_at(s: Seq<u8>, p: int, includes_map: bool) -> Result<
    (LeadingMapBlockView, int),
    LoadFailure,
> {
    let header = header_at(s, p);
    let disc_record = record_at(s, p + HEADER_SIZE);
    if p + HEADER_SIZE > s.len() {
        Err(LoadFailure::Truncated)
    } else if record_failure(s, p + HEADER_SIZE) is Some {
        Err(record_failure(s, p + HEADER_SIZE)->0)
    } else {
        match map_block_at(
            s,
            p + HEADER_SIZE + DISC_RECORD_SIZE,
            p,
            header,
            includes_map,
            disc_record,
        ) {
            Err(e) => Err(e),
            Ok((block, end)) => Ok(
                (
                    LeadingMapBlockView {
                        header,
                        disc_record,
                        allocations: block.allocations,
                        unused: block.unused,
                    },
                    end,
                ),
            ),
        }
    }
}

impl LeadingMapBlock {
    /// Reads the map of the first zone.
    pub fn parse(includes_map: bool, input: &mut InputStream<'_>) -> (r: Result<
        LeadingMapBlock,
        LoadFailure,
    >)
        requires
            old(input).wf(),
            old(input).bits_fit(),
        ensures
            final(input).wf(),
            final(input).data == old(input).data,
            ({
                let expected = leading_block_at(
                    old(input).data@,
                    old(input).pos as int,
                    includes_map,
                );
                match r {
                    Ok(block) => expected == Ok::<(LeadingMapBlockView, int), LoadFailure>(
                        (block@, final(input).pos as int),
                    ),
                    Err(e) => expected == Err::<(LeadingMapBlockView, int), LoadFailure>(e),
                }
            }),
    {
        let zone_start: usize = input.pos;
        let header = match Header::parse(input) {
            Ok(header) => header,
            Err(_) => {
                return Err(LoadFailure::Truncated);
            },
        };
        let disc_record = match DiscRecord::parse(input) {
            Ok(disc_record) => disc_record,
            Err(e) => {
                return Err(e);
            },
        };
        match MapBlock::parse_body(input, zone_start, header, includes_map, &disc_record) {
            Ok(MapBlock { header, allocations, unused }) => {
                Ok(LeadingMapBlock { header, disc_record, allocations, unused })
            },
            Err(e) => Err(e),
        }
    }
}

/// The map of a zone that is not the first one.
#[derive(Debug)]
pub struct MapBlock {
    pub header: Header,
    pub allocations: AllocationBytes,
    /// The rest of the sector.
    pub unused: Vec<u8>,
}

/// A [`MapBlock`] with the views of its parts.
pub struct MapBlockView {
    pub header: Header,
    pub allocations: Seq<FragmentBlock>,
    pub unused: Seq<u8>,
}

impl View for MapBlock {
    type V = MapBlockView;

    open spec fn view(&self) -> MapBlockView {
        MapBlockView {
            header: self.header,
            allocations: self.allocations@,
            unused: self.unused@,
        }
    }
}

/// The map of the zone that begins at byte `zone_start` with the given header, whose
/// fragments begin at byte `p`, and the byte behind it.
pub open spec fn map_block_at(
    s: Seq<u8>,
    p: int,
    zone_start: int,
    header: Header,
    includes_map: bool,
    disc: DiscRecord,
) -> Result<(MapBlockView, int), LoadFailure> {
    if !disc.can_be_read(includes_map) {
        Err(LoadFailure::Defect(Defect::Geometry))
    } else {
        let params = AllocationParsingParams::for_zone(includes_map, header.free_link, disc);
        match map_at(s, p, zone_start, params) {
            Err(e) => Err(e),
            Ok((allocations, map_end)) => {
                let end = sector_end(map_end, disc.sector_bytes() as int);
                if end > s.len() {
                    Err(LoadFailure::Truncated)
                } else {
                    Ok(
                        (
                            MapBlockView { header, allocations, unused: s.subrange(map_end, end) },
                            end,
                        ),
                    )
                }
            },
        }
    }
}

impl MapBlock {
    /// Reads the map of a zone behind its header.
    fn parse_body(
        input: &mut InputStream<'_>,
        zone_start: usize,
        header: Header,
        includes_map: bool,
        disc: &DiscRecord,
    ) -> (r: Result<MapBlock, LoadFailure>)
        requires
            old(input).wf(),
            old(input).bits_fit(),
            zone_start < old(input).pos,
        ensures
            final(input).wf(),
            final(input).data == old(input).data,
            ({
                let expected = map_block_at(
                    old(input).data@,
                    old(input).pos as int,
                    zone_start as int,
                    header,
                    includes_map,
                    *disc,
                );
                match r {
                    Ok(block) => expected == Ok::<(MapBlockView, int), LoadFailure>(
                        (block@, final(input).pos as int),
                    ),
                    Err(e) => expected == Err::<(MapBlockView, int), LoadFailure>(e),
                }
            }),
    {
        if !disc.check_geometry(includes_map) {
            return Err(LoadFailure::Defect(Defect::Geometry));
        }
        let params = AllocationParsingParams::new(includes_map, header.free_link, disc);
        let allocations = match AllocationBytes::parse(input, zone_start, &params) {
            Ok(allocations) => allocations,
            Err(e) => {
                return Err(e);
            },
        };
        let sector_size: usize = disc.sector_size();
        proof {
            lemma_pow2_pos(disc.log2_sec_size as nat);
        }
        match take_rest_of_sector(input, sector_size) {
            Some(unused) => Ok(MapBlock { header, allocations, unused }),
            None => Err(LoadFailure::Truncated),
        }
    }

    /// Reads the map of a zone.
    pub fn parse(input: &mut InputStream<'_>, includes_map: bool, disc: &DiscRecord) -> (r: Result<
        MapBlock,
        LoadFailure,
    >)
        requires
            old(input).wf(),
            old(input).bits_fit(),
        ensures
            final(input).wf(),
            final(input).data == old(input).data,
            ({
                let s = old(input).data@;
                let p = old(input).pos as int;
                let expected = map_block_at(
                    s,
                    p + HEADER_SIZE,
                    p,
                    header_at(s, p),
                    includes_map,
                    *disc,
                );
                match r {
                    Ok(block) => {
                        &&& p + HEADER_SIZE <= s.len()
                        &&& expected == Ok::<(MapBlockView, int), LoadFailure>(
                            (block@, final(input).pos as int),
                        )
                    },
                    Err(e) => if p + HEADER_SIZE > s.len() {
                        e == LoadFailure::Truncated
                    } else {
                        expected == Err::<(MapBlockView, int), LoadFailure>(e)
                    },
                }
            }),
    {
        let zone_start: usize = input.pos;
        match Header::parse(input) {
            Ok(header) => MapBlock::parse_body(input, zone_start, header, includes_map, disc),
            Err(_) => Err(LoadFailure::Truncated),
        }
    }
}

/// The map of a disc that has `ZONE_COUNT` zones behind the first one.
#[derive(Debug)]
pub struct NewMap<const ZONE_COUNT: usize> {
    pub leading_block: LeadingMapBlock,
    pub blocks: [MapBlock; ZONE_COUNT],
}

impl NewMap<0> {
    /// Reads the map of a disc that has one zone only.
    pub fn parse(input: &mut InputStream<'_>) -> (r: Result<NewMap<0>, LoadFailure>)
        requires
            old(input).wf(),
            old(input).bits_fit(),
        ensures
            final(input).wf(),
            final(input).data == old(input).data,
            ({
                let expected = leading_block_at(old(input).data@, old(input).pos as int, true);
                match r {
                    Ok(map) => expected == Ok::<(LeadingMapBlockView, int), LoadFailure>(
                        (map.leading_block@, final(input).pos as int),
                    ),
                    Err(e) => expected == Err::<(LeadingMapBlockView, int), LoadFailure>(e),
                }
            }),
    {
        match LeadingMapBlock::parse(true, input) {
            Ok(leading_block) => Ok(NewMap { leading_block, blocks: [] }),
            Err(e) => Err(e),
        }
    }
}

/// A format E disc, of which only the map is read.
#[derive(Debug)]
pub struct FormatE {
    pub map: NewMap<0>,
}

/// The map of the disc with the given image.
pub open spec fn loaded(image: Seq<u8>) -> Result<LeadingMapBlockView, LoadFailure> {
    match leading_block_at(image, 0, true) {
        Ok((block, _)) => Ok(block),
        Err(e) => Err(e),
    }
}

impl FormatE {
    /// Reads the map of a disc, as long as it can be followed.
    pub fn parse(bytes: &[u8]) -> (r: Result<FormatE, LoadFailure>)
        requires
            bits_fit(bytes@.len()),
            loaded(bytes@) matches Err(e) ==> !(e is Defect),
        ensures
            match r {
                Ok(disk) => loaded(bytes@) == Ok::<LeadingMapBlockView, LoadFailure>(
                    disk.map.leading_block@,
                ),
                Err(e) => loaded(bytes@) == Err::<LeadingMapBlockView, LoadFailure>(e),
            },
    {
        FormatE::load(bytes)
    }

    /// Reads the map of a disc.
    pub fn load(bytes: &[u8]) -> (r: Result<FormatE, LoadFailure>)
        requires
            bits_fit(bytes@.len()),
        ensures
            match r {
                Ok(disk) => loaded(bytes@) == Ok::<LeadingMapBlockView, LoadFailure>(
                    disk.map.leading_block@,
                ),
                Err(e) => loaded(bytes@) == Err::<LeadingMapBlockView, LoadFailure>(e),
            },
    {
        let mut input = make_input(bytes);
        match NewMap::<0>::parse(&mut input) {
            Ok(map) => Ok(FormatE { map }),
            Err(e) => Err(e),
        }
    }
}

} // verus!
