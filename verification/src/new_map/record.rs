//! The head of a map block: its checks, and the record that describes the disc.

use vstd::arithmetic::power2::*;
use vstd::prelude::*;

use super::util::{
    le_u16, le_u32, string_at, u16_at, u32_at, DiscPosition, FixedLenString, FragmentId, InputStream,
};
use super::{bare, Cause, CauseView, Fault, FaultView, ParseError, STRICT_MODE};

verus! {

/// The beginning of a map block: two checks, and where the list of free
/// fragments begins.
#[derive(Debug, Clone, Copy)]
pub struct Header {
    pub zone_check: u8,
    /// Where the first free fragment of this zone lies, in bits from byte 1 of the
    /// zone, or 0 where there is none. The disc holds it with the top bit set; the
    /// top bit is cleared here.
    pub free_link: u16,
    pub cross_check: u8,
}

/// The bytes that a header takes.
pub const HEADER_SIZE: usize = 4;

/// The header at `p`.
pub open spec fn header_at(s: Seq<u8>, p: int) -> Header {
    Header {
        zone_check: s[p],
        free_link: (le_u16(s, p + 1) % 0x8000) as u16,
        cross_check: s[p + 3],
    }
}

impl Header {
    /// Reads a header.
    pub fn parse(input: &mut InputStream<'_>) -> (r: Result<Header, ParseError>)
        requires
            old(input).wf(),
        ensures
            final(input).wf(),
            final(input).data == old(input).data,
            match r {
                Ok(header) => {
                    &&& old(input).pos + HEADER_SIZE <= old(input).data@.len()
                    &&& header == header_at(old(input).data@, old(input).pos as int)
                    &&& final(input).pos == old(input).pos + HEADER_SIZE
                },
                Err(e) => {
                    &&& old(input).pos + HEADER_SIZE > old(input).data@.len()
                    &&& e@ == bare(CauseView::Truncated)
                    &&& *final(input) == *old(input)
                },
            },
    {
        let p: usize = input.pos;
        if input.data.len() - p < HEADER_SIZE {
            return Err(ParseError::new(Cause::Truncated));
        }
        let link: u16 = u16_at(input.data, p + 1);
        assert(link & 0x7FFFu16 == link % 0x8000u16) by (bit_vector);
        let header = Header {
            zone_check: input.data[p],
            free_link: link & 0x7FFF,
            cross_check: input.data[p + 3],
        };
        input.pos = p + HEADER_SIZE;
        Ok(header)
    }
}

/// What the disc says of itself: its geometry, where the root directory lies, and
/// its name.
#[derive(Debug, Clone, Copy)]
pub struct DiscRecord {
    /// The binary logarithm of the sector size.
    pub log2_sec_size: u8,
    pub secs_per_track: u8,
    pub heads: u8,
    pub density: u8,
    /// How many bits the number of a disc object has in the allocation map.
    pub idlen: u8,
    /// The binary logarithm of the bytes that one bit of the allocation map
    /// stands for.
    pub log2_bytes_per_mapbit: u8,
    pub skew: u8,
    pub boot_options: u8,
    pub low_sector: u8,
    pub num_zones: u8,
    pub zone_spare: u16,
    pub root_dir: DiscPosition,
    /// The size of the disc in bytes.
    pub size: u32,
    pub disc_id: u16,
    pub disc_name: FixedLenString<10>,
    pub disc_type: u32,
}

/// The bytes that a disc record takes; the last of them are reserved.
pub const DISC_RECORD_SIZE: usize = 60;

/// Whether a disc has sectors of that size, given by its binary logarithm.
pub open spec fn acceptable_sector_size(s: u8) -> bool {
    !STRICT_MODE || s == 8 || s == 9 || s == 10
}

/// The disc record at `p`.
pub open spec fn record_at(s: Seq<u8>, p: int) -> DiscRecord {
    DiscRecord {
        log2_sec_size: s[p],
        secs_per_track: s[p + 1],
        heads: s[p + 2],
        density: s[p + 3],
        idlen: s[p + 4],
        log2_bytes_per_mapbit: s[p + 5],
        skew: s[p + 6],
        boot_options: s[p + 7],
        low_sector: s[p + 8],
        num_zones: s[p + 9],
        zone_spare: le_u16(s, p + 10),
        root_dir: DiscPosition(le_u32(s, p + 12)),
        size: le_u32(s, p + 16),
        disc_id: le_u16(s, p + 20),
        disc_name: string_at::<10>(s, p + 22),
        disc_type: le_u32(s, p + 32),
    }
}

impl DiscRecord {
    /// The size of a sector in bytes.
    pub open spec fn sector_size(self) -> nat {
        pow2(self.log2_sec_size as nat)
    }

    /// The size of a zone in bytes.
    pub open spec fn zone_size(self) -> int {
        self.size as int / self.num_zones as int
    }

    /// How many disc objects have their home in one zone.
    pub open spec fn objects_per_zone(self) -> int {
        (pow2((self.log2_sec_size + 3) as nat) - self.zone_spare) / (self.idlen + 1)
    }

    /// Whether the sector size and the number of disc objects in a zone are numbers
    /// that exist.
    pub open spec fn zone_is_countable(self) -> bool {
        &&& pow2((self.log2_sec_size + 3) as nat) <= usize::MAX
        &&& self.zone_spare <= pow2((self.log2_sec_size + 3) as nat)
    }

    /// Whether a zone of this disc can be mapped: there are zones, the map fits into
    /// the zone that holds it, and units and sectors can be counted.
    pub open spec fn can_be_mapped(self, zone_includes_map: bool) -> bool {
        &&& self.num_zones > 0
        &&& self.log2_sec_size < 32
        &&& zone_includes_map ==> self.num_zones * self.sector_size() <= self.zone_size()
        &&& pow2(self.log2_bytes_per_mapbit as nat) <= usize::MAX
    }

    /// The binary logarithm of the size of an allocation unit.
    pub fn fragment_block_size(&self) -> (r: usize)
        ensures
            r == self.log2_bytes_per_mapbit,
    {
        self.log2_bytes_per_mapbit as usize
    }

    /// The size of a sector in bytes.
    pub fn sector_size_in_bytes(&self) -> (r: usize)
        requires
            self.log2_sec_size < 32,
        ensures
            r == self.sector_size(),
    {
        proof {
            lemma2_to64();
            if self.log2_sec_size < 31 {
                lemma_pow2_strictly_increases(self.log2_sec_size as nat, 31);
            }
        }
        power_of_two(self.log2_sec_size)
    }

    /// The size of a zone in bytes.
    pub fn zone_size_in_bytes(&self) -> (r: usize)
        requires
            self.num_zones > 0,
        ensures
            r == self.zone_size(),
    {
        (self.size / self.num_zones as u32) as usize
    }

    /// How many disc objects have their home in one zone.
    pub fn ids_per_zone(&self) -> (r: usize)
        requires
            self.zone_is_countable(),
        ensures
            r == self.objects_per_zone(),
    {
        let bits: usize = match checked_power_of_two(self.log2_sec_size as usize + 3) {
            Some(bits) => bits,
            None => 0,
        };
        (bits - self.zone_spare as usize) / (self.idlen as usize + 1)
    }

    /// Refuses a sector size that no disc has.
    pub fn test_sector_size(s: u8) -> (r: Result<u8, Fault>)
        ensures
            match r {
                Ok(size) => acceptable_sector_size(s) && size == s,
                Err(fault) => !acceptable_sector_size(s) && fault@
                    == FaultView::UnacceptableSectorSize(s),
            },
    {
        if !STRICT_MODE || s == 8 || s == 9 || s == 10 {
            Ok(s)
        } else {
            Err(Fault::UnacceptableSectorSize(s))
        }
    }

    /// How many disc objects have their home in one zone, or none where they cannot be
    /// counted.
    pub fn countable_ids_per_zone(&self) -> (r: usize)
        ensures
            r == if self.zone_is_countable() {
                self.objects_per_zone()
            } else {
                0
            },
    {
        match checked_power_of_two(self.log2_sec_size as usize + 3) {
            None => 0,
            Some(bits) => if self.zone_spare as usize <= bits {
                self.ids_per_zone()
            } else {
                0
            },
        }
    }

    /// Whether a zone can be mapped.
    pub fn check_geometry(&self, zone_includes_map: bool) -> (r: bool)
        ensures
            r == self.can_be_mapped(zone_includes_map),
    {
        if self.num_zones == 0 || self.log2_sec_size >= 32 {
            return false;
        }
        if zone_includes_map {
            let sector: u64 = self.sector_size_in_bytes() as u64;
            let zone: u64 = self.zone_size_in_bytes() as u64;
            proof {
                lemma2_to64();
                if self.log2_sec_size < 31 {
                    lemma_pow2_strictly_increases(self.log2_sec_size as nat, 31);
                }
                assert(self.num_zones * sector <= 255 * 0x8000_0000) by (nonlinear_arith)
                    requires
                        self.num_zones <= 255,
                        sector <= 0x8000_0000,
                ;
            }
            if self.num_zones as u64 * sector > zone {
                return false;
            }
        }
        checked_power_of_two(self.log2_bytes_per_mapbit as usize).is_some()
    }

    /// Reads a disc record.
    pub fn parse(input: &mut InputStream<'_>) -> (r: Result<DiscRecord, ParseError>)
        requires
            old(input).wf(),
        ensures
            final(input).wf(),
            final(input).data == old(input).data,
            ({
                let s = old(input).data@;
                let p = old(input).pos as int;
                match r {
                    Ok(record) => {
                        &&& p + DISC_RECORD_SIZE <= s.len()
                        &&& record_failure(s, p) is None
                        &&& record == record_at(s, p)
                        &&& final(input).pos == p + DISC_RECORD_SIZE
                    },
                    Err(e) => {
                        &&& record_failure(s, p) is Some
                        &&& e@ == bare(record_failure(s, p)->0)
                        &&& *final(input) == *old(input)
                    },
                }
            }),
    {
        let p: usize = input.pos;
        let left: usize = input.data.len() - p;
        if left == 0 {
            return Err(ParseError::new(Cause::Truncated));
        }
        let log2_sec_size: u8 = match DiscRecord::test_sector_size(input.data[p]) {
            Ok(size) => size,
            Err(fault) => {
                return Err(ParseError::new(Cause::Fault(fault)));
            },
        };
        if left < DISC_RECORD_SIZE {
            return Err(ParseError::new(Cause::Truncated));
        }
        let record = DiscRecord {
            log2_sec_size,
            secs_per_track: input.data[p + 1],
            heads: input.data[p + 2],
            density: input.data[p + 3],
            idlen: input.data[p + 4],
            log2_bytes_per_mapbit: input.data[p + 5],
            skew: input.data[p + 6],
            boot_options: input.data[p + 7],
            low_sector: input.data[p + 8],
            num_zones: input.data[p + 9],
            zone_spare: u16_at(input.data, p + 10),
            root_dir: DiscPosition(u32_at(input.data, p + 12)),
            size: u32_at(input.data, p + 16),
            disc_id: u16_at(input.data, p + 20),
            disc_name: FixedLenString::<10>::read_at(input.data, p + 22),
            disc_type: u32_at(input.data, p + 32),
        };
        input.pos = p + DISC_RECORD_SIZE;
        Ok(record)
    }
}

/// Why there is no disc record at `p`, if there is none.
pub open spec fn record_failure(s: Seq<u8>, p: int) -> Option<CauseView> {
    if p >= s.len() {
        Some(CauseView::Truncated)
    } else if !acceptable_sector_size(s[p]) {
        Some(CauseView::Fault(FaultView::UnacceptableSectorSize(s[p])))
    } else if p + DISC_RECORD_SIZE > s.len() {
        Some(CauseView::Truncated)
    } else {
        None
    }
}

/// Two to the power of `n`, if it can be expressed.
pub fn checked_power_of_two(n: usize) -> (r: Option<usize>)
    ensures
        match r {
            Some(power) => power == pow2(n as nat),
            None => pow2(n as nat) > usize::MAX,
        },
{
    let mut power: usize = 1;
    let mut i: usize = 0;
    proof {
        lemma2_to64();
    }
    while i < n
        invariant
            i <= n,
            power == pow2(i as nat),
        decreases n - i,
    {
        proof {
            lemma_pow2_unfold((i + 1) as nat);
            if i + 1 < n {
                lemma_pow2_strictly_increases((i + 1) as nat, n as nat);
            }
        }
        if power > usize::MAX / 2 {
            return None;
        }
        power = 2 * power;
        i = i + 1;
    }
    Some(power)
}

/// Two to the power of `n`.
pub fn power_of_two(n: u8) -> (r: usize)
    requires
        pow2(n as nat) <= usize::MAX,
    ensures
        r == pow2(n as nat),
        r > 0,
{
    proof {
        lemma_pow2_pos(n as nat);
    }
    match checked_power_of_two(n as usize) {
        Some(power) => power,
        None => 1,
    }
}

/// Everything that reading an allocation map takes from elsewhere: it is spread
/// over different structures.
#[derive(Debug, Clone, Copy)]
pub struct AllocationParsingParams {
    pub mapped_space_in_alloc_units: usize,
    pub fragment_id_length: usize,
    pub log_bytes_per_alloc: usize,
    pub sector_size: usize,
    pub free_link: u16,
    pub total_disk_size: usize,
    pub zone_size: usize,
    /// How many disc objects have their home in one zone, or 0 where there are none or
    /// they cannot be counted.
    pub ids_per_zone: usize,
}

impl AllocationParsingParams {
    /// The size of an allocation unit in bytes.
    pub open spec fn unit(self) -> nat {
        pow2(self.log_bytes_per_alloc as nat)
    }

    /// Whether allocation units have a size that can be expressed.
    pub open spec fn has_unit(self) -> bool {
        self.unit() <= usize::MAX
    }

    /// Whether the sizes of the disc and of its zones are such as a disc record can hold.
    pub open spec fn sizes_fit(self) -> bool {
        &&& self.total_disk_size <= u32::MAX
        &&& self.zone_size <= u32::MAX
    }

    /// Whether a search for a disc object has a place to start at and a disc to go around,
    /// so that the fragments of one object can be put in order.
    pub open spec fn orders_fragments(self) -> bool {
        &&& self.total_disk_size > 0
        &&& self.ids_per_zone > 0
    }

    /// Parameters that an allocation map can be read with.
    pub open spec fn wf(self) -> bool {
        &&& self.has_unit()
        &&& self.sizes_fit()
    }

    /// Whether the fragments of one object can be put in order.
    pub fn check_order(&self) -> (r: bool)
        ensures
            r == self.orders_fragments(),
    {
        self.total_disk_size > 0 && self.ids_per_zone > 0
    }

    /// The parameters for a zone.
    pub open spec fn for_zone(
        zone_includes_map: bool,
        free_link: u16,
        disk: DiscRecord,
    ) -> AllocationParsingParams {
        let taken = if zone_includes_map {
            (disk.num_zones * disk.sector_size()) as int
        } else {
            0
        };
        AllocationParsingParams {
            mapped_space_in_alloc_units: ((disk.zone_size() - taken) / pow2(
                disk.log2_bytes_per_mapbit as nat,
            ) as int) as usize,
            fragment_id_length: disk.idlen as usize,
            log_bytes_per_alloc: disk.log2_bytes_per_mapbit as usize,
            sector_size: disk.sector_size() as usize,
            free_link,
            total_disk_size: disk.size as usize,
            zone_size: disk.zone_size() as usize,
            ids_per_zone: if disk.zone_is_countable() {
                disk.objects_per_zone() as usize
            } else {
                0
            },
        }
    }

    /// Whether these are the parameters for a zone.
    pub open spec fn describes(self, zone_includes_map: bool, free_link: u16, disk: DiscRecord) -> bool {
        let taken = if zone_includes_map {
            (disk.num_zones * disk.sector_size()) as int
        } else {
            0
        };
        &&& self.mapped_space_in_alloc_units == (disk.zone_size() - taken) / pow2(
            disk.log2_bytes_per_mapbit as nat,
        ) as int
        &&& self.fragment_id_length == disk.idlen
        &&& self.log_bytes_per_alloc == disk.log2_bytes_per_mapbit
        &&& self.sector_size == disk.sector_size()
        &&& self.free_link == free_link
        &&& self.total_disk_size == disk.size
        &&& self.zone_size == disk.zone_size()
        &&& self.ids_per_zone == if disk.zone_is_countable() {
            disk.objects_per_zone()
        } else {
            0
        }
    }

    /// Collects the parameters for a zone. A zone that holds the map does not map
    /// the sectors that the map takes.
    pub fn new(
        zone_includes_map: bool,
        free_link: u16,
        disk: &DiscRecord,
    ) -> (params: AllocationParsingParams)
        requires
            disk.can_be_mapped(zone_includes_map),
        ensures
            params.describes(zone_includes_map, free_link, *disk),
            params == AllocationParsingParams::for_zone(zone_includes_map, free_link, *disk),
            params.wf(),
    {
        let orig_zone_size: usize = disk.zone_size_in_bytes();
        let sector_size: usize = disk.sector_size_in_bytes();
        let zone_size_in_bytes: usize = if zone_includes_map {
            proof {
                assert(disk.num_zones as nat * sector_size as nat <= orig_zone_size);
            }
            orig_zone_size - (disk.num_zones as usize * sector_size)
        } else {
            orig_zone_size
        };
        let unit: usize = power_of_two(disk.log2_bytes_per_mapbit);
        proof {
            assert(disk.zone_size() <= u32::MAX) by (nonlinear_arith)
                requires
                    disk.zone_size() == disk.size as int / disk.num_zones as int,
                    disk.num_zones > 0,
                    disk.size <= u32::MAX,
            ;
        }
        let params = AllocationParsingParams {
            mapped_space_in_alloc_units: zone_size_in_bytes / unit,
            fragment_id_length: disk.idlen as usize,
            log_bytes_per_alloc: disk.log2_bytes_per_mapbit as usize,
            sector_size,
            free_link,
            total_disk_size: disk.size as usize,
            zone_size: orig_zone_size,
            ids_per_zone: disk.countable_ids_per_zone(),
        };
        assert(params.describes(zone_includes_map, free_link, *disk));
        params
    }

    /// The size of a sector in bytes.
    pub fn sector_size(&self) -> (r: usize)
        ensures
            r == self.sector_size,
    {
        self.sector_size
    }

    /// The size of an allocation unit in bytes.
    pub fn bytes_per_alloc_unit(&self) -> (r: usize)
        requires
            self.unit() <= usize::MAX,
        ensures
            r == self.unit(),
    {
        match checked_power_of_two(self.log_bytes_per_alloc) {
            Some(power) => power,
            None => 1,
        }
    }

    /// How many allocation units the zone maps.
    pub fn mapped_space_in_alloc_units(&self) -> (r: usize)
        ensures
            r == self.mapped_space_in_alloc_units,
    {
        self.mapped_space_in_alloc_units
    }

    /// Where the list of free fragments begins.
    pub fn free_link(&self) -> (r: FragmentId)
        ensures
            r == self.free_link,
    {
        self.free_link
    }

    /// How many bits the number of a disc object has.
    pub fn fragment_id_length(&self) -> (r: usize)
        ensures
            r == self.fragment_id_length,
    {
        self.fragment_id_length
    }

    /// Where the search for the fragments of a disc object starts: at the zone that
    /// the object has its home in.
    pub open spec fn search_start(self, id: FragmentId) -> int {
        (id as int / self.ids_per_zone as int) * self.zone_size
    }

    /// How far behind that place a byte of the disc is met, when the search goes
    /// around the end of the disc.
    pub open spec fn search_distance(self, id: FragmentId, start: usize) -> int {
        (start - self.search_start(id)) % (self.total_disk_size as int)
    }

    /// Where the search for the fragments of a disc object starts.
    pub fn search_starting_point(&self, id: FragmentId) -> (r: u64)
        requires
            self.sizes_fit(),
            self.ids_per_zone > 0,
        ensures
            r == self.search_start(id),
    {
        let zone: usize = id as usize / self.ids_per_zone;
        proof {
            vstd::arithmetic::div_mod::lemma_div_is_ordered_by_denominator(
                id as int,
                1,
                self.ids_per_zone as int,
            );
            assert(zone * self.zone_size <= 0xFFFF * 0xFFFF_FFFF) by (nonlinear_arith)
                requires
                    zone <= 0xFFFF,
                    self.zone_size <= 0xFFFF_FFFF,
            ;
        }
        zone as u64 * self.zone_size as u64
    }

    /// How far behind that place a byte of the disc is met.
    pub fn distance_from_start(&self, id: FragmentId, start: usize) -> (r: u64)
        requires
            self.sizes_fit(),
            self.orders_fragments(),
        ensures
            r == self.search_distance(id, start),
    {
        let total: u64 = self.total_disk_size as u64;
        let from: u64 = self.search_starting_point(id);
        let a: u64 = start as u64 % total;
        let b: u64 = from % total;
        proof {
            let t = total as int;
            let d = start - from;
            vstd::arithmetic::div_mod::lemma_fundamental_div_mod(start as int, t);
            vstd::arithmetic::div_mod::lemma_fundamental_div_mod(from as int, t);
            let k = from as int / t - start as int / t + 1;
            assert(a + total - b == d + t * k) by (nonlinear_arith)
                requires
                    start as int == t * (start as int / t) + a,
                    from as int == t * (from as int / t) + b,
                    d == start - from,
                    k == from as int / t - start as int / t + 1,
                    t == total,
            ;
            vstd::arithmetic::div_mod::lemma_mod_multiples_vanish(k, d, t);
        }
        (a + total - b) % total
    }
}

/// The parameters for a zone that can be mapped are what its disc record says.
pub proof fn lemma_for_zone(zone_includes_map: bool, free_link: u16, disk: DiscRecord)
    requires
        disk.can_be_mapped(zone_includes_map),
    ensures
        AllocationParsingParams::for_zone(zone_includes_map, free_link, disk).describes(
            zone_includes_map,
            free_link,
            disk,
        ),
        AllocationParsingParams::for_zone(zone_includes_map, free_link, disk).wf(),
{
    let zone = disk.zone_size();
    assert(0 <= zone <= disk.size) by (nonlinear_arith)
        requires
            zone == disk.size as int / disk.num_zones as int,
            disk.num_zones > 0,
    ;
    lemma2_to64();
    if disk.log2_sec_size < 31 {
        lemma_pow2_strictly_increases(disk.log2_sec_size as nat, 31);
    }
    let unit = pow2(disk.log2_bytes_per_mapbit as nat) as int;
    lemma_pow2_pos(disk.log2_bytes_per_mapbit as nat);
    let taken = if zone_includes_map {
        (disk.num_zones * disk.sector_size()) as int
    } else {
        0
    };
    assert(taken >= 0) by (nonlinear_arith)
        requires
            taken == 0 || taken == disk.num_zones * disk.sector_size(),
    ;
    let mapped = zone - taken;
    assert(0 <= mapped / unit <= mapped) by (nonlinear_arith)
        requires
            mapped >= 0,
            unit >= 1,
    ;
    if disk.zone_is_countable() {
        let bits = pow2((disk.log2_sec_size + 3) as nat) - disk.zone_spare;
        let each = disk.idlen + 1;
        assert(0 <= bits / each <= bits) by (nonlinear_arith)
            requires
                bits >= 0,
                each >= 1,
        ;
    }
}

} // verus!
