//! The free space map of older discs: where the free parts of the disc lie, and
//! how long they are.

use vstd::prelude::*;
use vstd::string::*;

use crate::new_map::util::{le_u24, u24_at};
use crate::text::{push_radix, radix_text};

verus! {

/// How many free parts a map has room for.
pub const MAX_FREE_SPACE_ENTRIES: usize = 82;

/// The bytes of a map.
pub const FREE_SPACE_MAP_LENGTH: usize = 2048;

/// The bytes of the number of a disc.
pub const DISK_ID_LENGTH: usize = 2;

/// There were not enough bytes.
#[derive(Debug, Clone, Copy, PartialEq, Eq, Structural)]
pub struct EmptyError;

/// Reads a number of three bytes, the least significant one first.
pub fn parse_3_byte_number(input: &mut &[u8]) -> (r: Result<u32, EmptyError>)
    ensures
        match r {
            Ok(n) => {
                &&& old(input)@.len() >= 3
                &&& n == le_u24(old(input)@, 0)
                &&& final(input)@ == old(input)@.skip(3)
            },
            Err(_) => old(input)@.len() < 3 && *final(input) == *old(input),
        },
{
    let bytes: &[u8] = *input;
    if bytes.len() < 3 {
        return Err(EmptyError);
    }
    let n: u32 = u24_at(bytes, 0);
    *input = vstd::slice::slice_subrange(bytes, 3, bytes.len());
    assert(input@ =~= bytes@.skip(3));
    Ok(n)
}

/// Takes some bytes.
fn take_bytes(input: &mut &[u8], count: usize) -> (r: Result<Vec<u8>, EmptyError>)
    ensures
        match r {
            Ok(taken) => {
                &&& old(input)@.len() >= count
                &&& taken@ == old(input)@.take(count as int)
                &&& final(input)@ == old(input)@.skip(count as int)
            },
            Err(_) => old(input)@.len() < count && *final(input) == *old(input),
        },
{
    let bytes: &[u8] = *input;
    if bytes.len() < count {
        return Err(EmptyError);
    }
    let taken: Vec<u8> = vstd::slice::slice_to_vec(vstd::slice::slice_subrange(bytes, 0, count));
    *input = vstd::slice::slice_subrange(bytes, count, bytes.len());
    assert(taken@ =~= bytes@.take(count as int));
    assert(input@ =~= bytes@.skip(count as int));
    Ok(taken)
}

/// Takes one byte.
fn take_byte(input: &mut &[u8]) -> (r: Result<u8, EmptyError>)
    ensures
        match r {
            Ok(byte) => {
                &&& old(input)@.len() >= 1
                &&& byte == old(input)@[0]
                &&& final(input)@ == old(input)@.skip(1)
            },
            Err(_) => old(input)@.len() < 1 && *final(input) == *old(input),
        },
{
    let bytes: &[u8] = *input;
    if bytes.len() < 1 {
        return Err(EmptyError);
    }
    *input = vstd::slice::slice_subrange(bytes, 1, bytes.len());
    assert(input@ =~= bytes@.skip(1));
    Ok(bytes[0])
}

/// The number of a sector.
#[derive(Debug, Clone, Copy, PartialEq, Eq, Structural)]
pub struct SectorNumber(pub u32);

impl SectorNumber {
    /// Reads the number of a sector.
    pub fn parse(input: &mut &[u8]) -> (r: Result<SectorNumber, EmptyError>)
        ensures
            match r {
                Ok(n) => {
                    &&& old(input)@.len() >= 3
                    &&& n.0 == le_u24(old(input)@, 0)
                    &&& final(input)@ == old(input)@.skip(3)
                },
                Err(_) => old(input)@.len() < 3 && *final(input) == *old(input),
            },
    {
        match parse_3_byte_number(input) {
            Ok(n) => Ok(SectorNumber(n)),
            Err(e) => Err(e),
        }
    }

    /// The number as it is shown, in one line.
    pub fn debug_string(&self) -> (s: String)
        ensures
            s@ == "SectorNumber("@ + radix_text(self.0 as nat, 16, false) + ")"@,
    {
        let mut s = String::new();
        s.append("SectorNumber(");
        push_radix(&mut s, self.0 as u64, 16, false);
        s.append(")");
        assert(s@ =~= "SectorNumber("@ + radix_text(self.0 as nat, 16, false) + ")"@);
        s
    }
}

/// Where the free parts of a disc lie, and how long they are, with what else its
/// first two sectors hold.
#[derive(Debug)]
pub struct FreeSpaceMap {
    pub free_space_offsets: Vec<SectorNumber>,
    pub free_space_lengths: Vec<u32>,
    pub number_of_sectors: u32,
    /// The name of the disc: the characters at odd places, and those at even ones.
    pub name_chars: (Vec<u8>, Vec<u8>),
    pub reported_sec0_checksum: u8,
    pub reported_sec1_checksum: u8,
    pub partition1_offset: SectorNumber,
    pub partition2_offset: SectorNumber,
    pub disk_id: [u8; 2],
    pub boot_options: u8,
    pub ptr_end_free_list: u8,
}

impl FreeSpaceMap {
    /// Whether this is what the bytes of a map say.
    pub open spec fn describes(&self, s: Seq<u8>) -> bool {
        &&& self.free_space_offsets@.len() == MAX_FREE_SPACE_ENTRIES
        &&& forall|i: int|
            0 <= i < MAX_FREE_SPACE_ENTRIES ==> (#[trigger] self.free_space_offsets@[i]).0
                == le_u24(s, 3 * i)
        &&& self.partition1_offset.0 == le_u24(s, 246)
        &&& self.name_chars.0@ == s.subrange(249, 254)
        &&& self.number_of_sectors == le_u24(s, 254)
        &&& self.reported_sec0_checksum == s[257]
        &&& self.free_space_lengths@.len() == MAX_FREE_SPACE_ENTRIES
        &&& forall|i: int|
            0 <= i < MAX_FREE_SPACE_ENTRIES ==> #[trigger] self.free_space_lengths@[i] == le_u24(
                s,
                258 + 3 * i,
            )
        &&& self.partition2_offset.0 == le_u24(s, 504)
        &&& self.name_chars.1@ == s.subrange(507, 512)
        &&& self.disk_id@ == s.subrange(512, 514)
        &&& self.boot_options == s[514]
        &&& self.ptr_end_free_list == s[515]
        &&& self.reported_sec1_checksum == s[516]
    }

    /// Reads sector numbers.
    fn parse_offsets(input: &mut &[u8]) -> (r: Result<Vec<SectorNumber>, EmptyError>)
        ensures
            match r {
                Ok(offsets) => {
                    &&& old(input)@.len() >= 3 * MAX_FREE_SPACE_ENTRIES
                    &&& offsets@.len() == MAX_FREE_SPACE_ENTRIES
                    &&& forall|i: int|
                        0 <= i < MAX_FREE_SPACE_ENTRIES ==> (#[trigger] offsets@[i]).0 == le_u24(
                            old(input)@,
                            3 * i,
                        )
                    &&& final(input)@ == old(input)@.skip(3 * MAX_FREE_SPACE_ENTRIES)
                },
                Err(_) => old(input)@.len() < 3 * MAX_FREE_SPACE_ENTRIES,
            },
    {
        let ghost s = input@;
        let mut offsets: Vec<SectorNumber> = Vec::new();
        assert(s.skip(0) =~= s);
        while offsets.len() < MAX_FREE_SPACE_ENTRIES
            invariant
                s == old(input)@,
                offsets@.len() <= MAX_FREE_SPACE_ENTRIES,
                3 * offsets@.len() <= s.len(),
                input@ == s.skip(3 * offsets@.len() as int),
                forall|i: int|
                    0 <= i < offsets@.len() ==> (#[trigger] offsets@[i]).0 == le_u24(s, 3 * i),
            decreases MAX_FREE_SPACE_ENTRIES - offsets@.len(),
        {
            let ghost done = 3 * offsets@.len() as int;
            match SectorNumber::parse(input) {
                Ok(n) => {
                    assert(s.skip(done).skip(3) =~= s.skip(done + 3));
                    offsets.push(n);
                },
                Err(e) => {
                    return Err(e);
                },
            }
        }
        Ok(offsets)
    }

    /// Reads numbers of sectors.
    fn parse_lengths(input: &mut &[u8]) -> (r: Result<Vec<u32>, EmptyError>)
        ensures
            match r {
                Ok(lengths) => {
                    &&& old(input)@.len() >= 3 * MAX_FREE_SPACE_ENTRIES
                    &&& lengths@.len() == MAX_FREE_SPACE_ENTRIES
                    &&& forall|i: int|
                        0 <= i < MAX_FREE_SPACE_ENTRIES ==> #[trigger] lengths@[i] == le_u24(
                            old(input)@,
                            3 * i,
                        )
                    &&& final(input)@ == old(input)@.skip(3 * MAX_FREE_SPACE_ENTRIES)
                },
                Err(_) => old(input)@.len() < 3 * MAX_FREE_SPACE_ENTRIES,
            },
    {
        let ghost s = input@;
        let mut lengths: Vec<u32> = Vec::new();
        assert(s.skip(0) =~= s);
        while lengths.len() < MAX_FREE_SPACE_ENTRIES
            invariant
                s == old(input)@,
                lengths@.len() <= MAX_FREE_SPACE_ENTRIES,
                3 * lengths@.len() <= s.len(),
                input@ == s.skip(3 * lengths@.len() as int),
                forall|i: int| 0 <= i < lengths@.len() ==> #[trigger] lengths@[i] == le_u24(s, 3 * i),
            decreases MAX_FREE_SPACE_ENTRIES - lengths@.len(),
        {
            let ghost done = 3 * lengths@.len() as int;
            match parse_3_byte_number(input) {
                Ok(n) => {
                    assert(s.skip(done).skip(3) =~= s.skip(done + 3));
                    lengths.push(n);
                },
                Err(e) => {
                    return Err(e);
                },
            }
        }
        Ok(lengths)
    }

    /// Reads the fields of a map from wherever it stands.
    fn parse(input: &mut &[u8]) -> (r: Result<FreeSpaceMap, EmptyError>)
        ensures
            match r {
                Ok(map) => old(input)@.len() >= 517 && map.describes(old(input)@),
                Err(_) => old(input)@.len() < 517,
            },
    {
        let ghost s = input@;
        let free_space_offsets = FreeSpaceMap::parse_offsets(input)?;
        let partition1_offset = SectorNumber::parse(input)?;
        assert(s.skip(246).skip(3) =~= s.skip(249));
        let odd_name_chars = take_bytes(input, 5)?;
        assert(s.skip(249).skip(5) =~= s.skip(254));
        assert(s.skip(249).take(5) =~= s.subrange(249, 254));
        let number_of_sectors: u32 = parse_3_byte_number(input)?;
        assert(s.skip(254).skip(3) =~= s.skip(257));
        let reported_sec0_checksum: u8 = take_byte(input)?;
        assert(s.skip(257).skip(1) =~= s.skip(258));
        let free_space_lengths = FreeSpaceMap::parse_lengths(input)?;
        assert(s.skip(258).skip(246) =~= s.skip(504));
        let partition2_offset = SectorNumber::parse(input)?;
        assert(s.skip(504).skip(3) =~= s.skip(507));
        let even_name_chars = take_bytes(input, 5)?;
        assert(s.skip(507).skip(5) =~= s.skip(512));
        assert(s.skip(507).take(5) =~= s.subrange(507, 512));
        let disk_id_first: u8 = take_byte(input)?;
        assert(s.skip(512).skip(1) =~= s.skip(513));
        let disk_id_second: u8 = take_byte(input)?;
        assert(s.skip(513).skip(1) =~= s.skip(514));
        let disk_id: [u8; 2] = [disk_id_first, disk_id_second];
        assert(disk_id@ =~= s.subrange(512, 514));
        let boot_options: u8 = take_byte(input)?;
        assert(s.skip(514).skip(1) =~= s.skip(515));
        let ptr_end_free_list: u8 = take_byte(input)?;
        assert(s.skip(515).skip(1) =~= s.skip(516));
        let reported_sec1_checksum: u8 = take_byte(input)?;
        assert forall|i: int| 0 <= i < MAX_FREE_SPACE_ENTRIES implies #[trigger] free_space_lengths@[i]
            == le_u24(s, 258 + 3 * i) by {}
        Ok(
            FreeSpaceMap {
                free_space_offsets,
                free_space_lengths,
                number_of_sectors,
                name_chars: (odd_name_chars, even_name_chars),
                reported_sec0_checksum,
                reported_sec1_checksum,
                partition1_offset,
                partition2_offset,
                disk_id,
                boot_options,
                ptr_end_free_list,
            },
        )
    }

    /// Reads a map. Its bytes are always enough for it.
    pub fn from_bytes(data: &[u8; 2048]) -> (r: Result<FreeSpaceMap, EmptyError>)
        ensures
            r matches Ok(map) && map.describes(data@),
    {
        let mut cursor: &[u8] = data.as_slice();
        FreeSpaceMap::parse(&mut cursor)
    }
}

} // verus!
