//! What the file system is made of: directories, their entries, and the
//! attributes of what they list.

use arrayvec::ArrayVec;
use vstd::prelude::*;

use super::checksum::{
    add_bytes, add_words, append_bytes, check_byte, fold, lemma_spans_push, spans,
};
use super::path::{Path, MAX_SEGMENT_LENGTH};
use super::util::{
    le_u24, le_u32, string_at, u32_at, BitPosition, DiscPosition, FixedLenString, InputStream,
};
use super::{
    bare, fault_views, Cause, CauseView, Fault, FaultValue, FaultView, ParseError, STRICT_MODE,
};

verus! {

/// How many bytes the title of a directory has.
pub const MAX_TITLE_LENGTH: usize = 19;

/// How many entries a directory has room for.
pub const SIZE_OF_DIRECTORY: usize = 77;

/// The bytes of an entry.
pub const DIR_ENTRY_SIZE: usize = 26;

/// The bytes before the entries.
pub const DIR_HEADER_SIZE: usize = 5;

/// The bytes behind the entries.
pub const DIR_TAIL_SIZE: usize = 41;

/// Whether the four bytes at `p` are `Hugo` or `Nick`, one of which a directory
/// begins and ends with.
pub open spec fn is_magic(s: Seq<u8>, p: int) -> bool {
    ||| s[p] == 0x48 && s[p + 1] == 0x75 && s[p + 2] == 0x67 && s[p + 3] == 0x6F
    ||| s[p] == 0x4E && s[p + 1] == 0x69 && s[p + 2] == 0x63 && s[p + 3] == 0x6B
}

/// What is wrong where `Hugo` or `Nick` belongs.
pub open spec fn magic_failure(s: Seq<u8>, p: int) -> Option<CauseView> {
    if p + 4 > s.len() {
        Some(CauseView::Truncated)
    } else if !is_magic(s, p) {
        Some(CauseView::Fault(FaultView::MagicStringFailure(s.subrange(p, p + 4))))
    } else {
        None
    }
}

/// Reads `Hugo` or `Nick`.
pub fn parse_magic_string(input: &mut InputStream<'_>) -> (r: Result<(), ParseError>)
    requires
        old(input).wf(),
    ensures
        final(input).wf(),
        final(input).data == old(input).data,
        ({
            let failure = magic_failure(old(input).data@, old(input).pos as int);
            match r {
                Ok(_) => failure is None && final(input).pos == old(input).pos + 4,
                Err(e) => {
                    &&& failure is Some
                    &&& e@ == bare(failure->0)
                    &&& *final(input) == *old(input)
                },
            }
        }),
{
    let p: usize = input.pos;
    if input.data.len() - p < 4 {
        return Err(ParseError::new(Cause::Truncated));
    }
    let (a, b, c, d) = (input.data[p], input.data[p + 1], input.data[p + 2], input.data[p + 3]);
    if (a == 0x48 && b == 0x75 && c == 0x67 && d == 0x6F) || (a == 0x4E && b == 0x69 && c == 0x63
        && d == 0x6B) {
        input.pos = p + 4;
        Ok(())
    } else {
        let found: [u8; 4] = [a, b, c, d];
        assert(found@ =~= input.data@.subrange(p as int, p + 4));
        Err(ParseError::new(Cause::Fault(Fault::MagicStringFailure(found))))
    }
}

/// What may be done with a file, and whether it is a directory.
#[derive(Debug, Clone, Copy, PartialEq, Eq, Structural)]
pub struct Attributes {
    pub bits: u8,
}

impl Attributes {
    pub const READ: u8 = 0x01;

    pub const WRITE: u8 = 0x02;

    pub const LOCK: u8 = 0x04;

    pub const DIR: u8 = 0x08;

    pub const PUBLIC_READ: u8 = 0x10;

    pub const PUBLIC_WRITE: u8 = 0x20;

    /// Whether this is a directory.
    pub open spec fn has_dir(self) -> bool {
        (self.bits / 8) % 2 == 1
    }

    /// The attributes with the given bits, where each of them stands for one.
    pub fn from_bits(bits: u8) -> (r: Option<Attributes>)
        ensures
            r == if bits < 0x40 {
                Some(Attributes { bits })
            } else {
                None
            },
    {
        if bits < 0x40 {
            Some(Attributes { bits })
        } else {
            None
        }
    }

    /// The attributes with the given bits, whatever they are.
    pub fn from_bits_retain(bits: u8) -> (r: Attributes)
        ensures
            r.bits == bits,
    {
        Attributes { bits }
    }

    /// The attributes with those of the given bits that stand for one.
    pub fn from_bits_truncate(bits: u8) -> (r: Attributes)
        ensures
            r.bits == bits % 0x40,
    {
        Attributes { bits: bits % 0x40 }
    }

    /// The bits.
    pub fn bits(&self) -> (r: u8)
        ensures
            r == self.bits,
    {
        self.bits
    }

    /// Whether all of the given bits are set.
    pub fn contains(&self, flags: u8) -> (r: bool)
        ensures
            r == (self.bits & flags == flags),
            flags == Attributes::DIR ==> r == self.has_dir(),
    {
        let bits: u8 = self.bits;
        assert((bits & 0x08u8 == 0x08u8) == ((bits / 8u8) % 2u8 == 1u8)) by (bit_vector);
        self.bits & flags == flags
    }

    /// Reads attributes. Bits that stand for nothing are kept and reported, with the
    /// path left open.
    pub fn parse(input: &mut InputStream<'_>) -> (r: Result<FaultValue<Attributes>, ParseError>)
        requires
            old(input).wf(),
            old(input).bits_fit(),
        ensures
            final(input).wf(),
            final(input).data == old(input).data,
            match r {
                Ok(value) => {
                    let s = old(input).data@;
                    let p = old(input).pos as int;
                    &&& p < s.len()
                    &&& value.0 == attributes_of(s[p])
                    &&& fault_views(value.1@) == attribute_faults(s[p], p, Seq::empty())
                    &&& final(input).pos == p + 1
                },
                Err(e) => {
                    &&& old(input).pos == old(input).data@.len()
                    &&& e@ == bare(CauseView::Truncated)
                    &&& *final(input) == *old(input)
                },
            },
    {
        let pos: usize = input.pos;
        if pos >= input.data.len() {
            return Err(ParseError::new(Cause::Truncated));
        }
        let attr_value: u8 = input.data[pos];
        let location = BitPosition::from_bytes(pos);
        input.pos = pos + 1;
        let ghost nothing = Seq::<Fault>::empty();
        assert(fault_views(nothing) =~= Seq::empty());
        if STRICT_MODE {
            match Attributes::from_bits(attr_value) {
                Some(attrs) => Ok(FaultValue::from(attrs)),
                None => {
                    let mut faults: Vec<Fault> = Vec::new();
                    faults.push(
                        Fault::InvalidAttr { location, path: Path::root_path(), attr_value },
                    );
                    assert(fault_views(faults@) =~= attribute_faults(
                        attr_value,
                        pos as int,
                        Seq::empty(),
                    ));
                    Ok(FaultValue(Attributes::from_bits_retain(attr_value), faults))
                },
            }
        } else {
            Ok(FaultValue::from(Attributes::from_bits_truncate(attr_value)))
        }
    }
}

/// The attributes that a byte of the disc stands for.
pub open spec fn attributes_of(byte: u8) -> Attributes {
    if STRICT_MODE {
        Attributes { bits: byte }
    } else {
        Attributes { bits: (byte % 0x40) as u8 }
    }
}

/// What there is to report of an attribute byte at `p`.
pub open spec fn attribute_faults(byte: u8, p: int, path: Seq<Seq<u8>>) -> Seq<FaultView> {
    if STRICT_MODE && byte >= 0x40 {
        seq![
            FaultView::InvalidAttr {
                location: BitPosition((8 * p) as usize),
                path,
                attr_value: byte,
            },
        ]
    } else {
        Seq::empty()
    }
}

/// One entry of a directory.
#[derive(Debug, Clone, Copy)]
pub struct DirEntry {
    pub obj_name: FixedLenString<10>,
    pub load: u32,
    pub exec_address: u32,
    pub len: u32,
    pub address: DiscPosition,
    pub attrs: Attributes,
}

/// The entry at `p`.
pub open spec fn entry_at(s: Seq<u8>, p: int) -> DirEntry {
    DirEntry {
        obj_name: string_at::<10>(s, p),
        load: le_u32(s, p + 10),
        exec_address: le_u32(s, p + 14),
        len: le_u32(s, p + 18),
        address: DiscPosition(le_u24(s, p + 22)),
        attrs: attributes_of(s[p + 25]),
    }
}

/// What there is to report of the entry at `p`.
pub open spec fn entry_faults(s: Seq<u8>, p: int) -> Seq<FaultView> {
    attribute_faults(s[p + 25], p + 25, seq![entry_at(s, p).obj_name@])
}

impl DirEntry {
    /// Reads an entry.
    pub fn parse(input: &mut InputStream<'_>) -> (r: Result<FaultValue<DirEntry>, ParseError>)
        requires
            old(input).wf(),
            old(input).bits_fit(),
        ensures
            final(input).wf(),
            final(input).data == old(input).data,
            ({
                let s = old(input).data@;
                let p = old(input).pos as int;
                match r {
                    Ok(value) => {
                        &&& p + DIR_ENTRY_SIZE <= s.len()
                        &&& value.0 == entry_at(s, p)
                        &&& fault_views(value.1@) == entry_faults(s, p)
                        &&& final(input).pos == p + DIR_ENTRY_SIZE
                    },
                    Err(e) => {
                        &&& p + DIR_ENTRY_SIZE > s.len()
                        &&& e@ == bare(CauseView::Truncated)
                        &&& *final(input) == *old(input)
                    },
                }
            }),
    {
        let p: usize = input.pos;
        let begin: InputStream<'_> = *input;
        if input.data.len() - p < DIR_ENTRY_SIZE {
            return Err(ParseError::new(Cause::Truncated));
        }
        let obj_name = FixedLenString::<10>::read_at(input.data, p);
        let load: u32 = u32_at(input.data, p + 10);
        let exec_address: u32 = u32_at(input.data, p + 14);
        let len: u32 = u32_at(input.data, p + 18);
        input.pos = p + 22;
        let address = match DiscPosition::parse_for_new_map(input) {
            Ok(address) => address,
            Err(e) => {
                *input = begin;
                return Err(e);
            },
        };
        let FaultValue(attrs, found) = match Attributes::parse(input) {
            Ok(value) => value,
            Err(e) => {
                *input = begin;
                return Err(e);
            },
        };
        let faults = name_faults(found, obj_name);
        assert(fault_views(faults@) =~= entry_faults(input.data@, p as int));
        Ok(FaultValue(DirEntry { obj_name, load, exec_address, len, address, attrs }, faults))
    }
}

/// A fault about attributes, with the path of what has them.
pub open spec fn with_name(fault: FaultView, name: Seq<u8>) -> FaultView {
    match fault {
        FaultView::InvalidAttr { location, path, attr_value } => FaultView::InvalidAttr {
            location,
            path: seq![name],
            attr_value,
        },
        other => other,
    }
}

/// Fills in the path of faults about attributes.
fn name_faults(faults: Vec<Fault>, name: FixedLenString<10>) -> (r: Vec<Fault>)
    ensures
        fault_views(r@) == fault_views(faults@).map_values(|f: FaultView| with_name(f, name@)),
{
    let mut named: Vec<Fault> = Vec::new();
    let mut rest: Vec<Fault> = faults;
    let ghost all = faults@;
    let mut done: usize = 0;
    let total: usize = rest.len();
    while done < total
        invariant
            total == all.len(),
            done <= total,
            rest@ == all.skip(done as int),
            fault_views(named@) =~= fault_views(all.take(done as int)).map_values(
                |f: FaultView| with_name(f, name@),
            ),
        decreases total - done,
    {
        let fault = rest.remove(0);
        let ghost view = fault@;
        let named_fault = match fault {
            Fault::InvalidAttr { location, path, attr_value } => {
                let mut segments: Vec<FixedLenString<10>> = Vec::new();
                segments.push(name);
                let path = Path::from_segments(segments.as_slice());
                assert(path@ =~= seq![name@]);
                Fault::InvalidAttr { location, path, attr_value }
            },
            other => other,
        };
        assert(named_fault@ == with_name(view, name@));
        proof {
            let before = all.take(done as int);
            assert(all.take(done + 1) =~= before.push(all[done as int]));
            assert(fault_views(before.push(all[done as int])) =~= fault_views(before).push(view));
            assert(fault_views(named@.push(named_fault)) =~= fault_views(named@).push(
                named_fault@,
            ));
        }
        named.push(named_fault);
        done = done + 1;
    }
    assert(all.take(total as int) =~= all);
    named
}

/// The beginning of a directory.
#[derive(Debug, Clone, Copy)]
pub struct DirHeader {
    pub start_seq_num: u8,
}

/// Why no directory begins at `p`, if none does.
pub open spec fn dir_header_failure(s: Seq<u8>, p: int) -> Option<CauseView> {
    if p >= s.len() {
        Some(CauseView::Truncated)
    } else {
        magic_failure(s, p + 1)
    }
}

impl DirHeader {
    /// Reads the beginning of a directory.
    pub fn parse(input: &mut InputStream<'_>) -> (r: Result<DirHeader, ParseError>)
        requires
            old(input).wf(),
        ensures
            final(input).wf(),
            final(input).data == old(input).data,
            ({
                let s = old(input).data@;
                let p = old(input).pos as int;
                let failure = dir_header_failure(s, p);
                match r {
                    Ok(header) => {
                        &&& failure is None
                        &&& header.start_seq_num == s[p]
                        &&& final(input).pos == p + DIR_HEADER_SIZE
                    },
                    Err(e) => {
                        &&& failure is Some
                        &&& e@ == bare(failure->0)
                        &&& *final(input) == *old(input)
                    },
                }
            }),
    {
        let p: usize = input.pos;
        if p >= input.data.len() {
            return Err(ParseError::new(Cause::Truncated));
        }
        let start_seq_num: u8 = input.data[p];
        input.pos = p + 1;
        match parse_magic_string(input) {
            Ok(_) => Ok(DirHeader { start_seq_num }),
            Err(e) => {
                input.pos = p;
                Err(e)
            },
        }
    }
}

/// The end of a directory.
#[derive(Debug, Clone, Copy)]
pub struct DirTail {
    pub parent: DiscPosition,
    pub title: FixedLenString<19>,
    pub name: FixedLenString<10>,
    pub end_seq_num: u8,
    pub check_byte: u8,
}

/// The end of a directory, as it stands at `p`.
pub open spec fn tail_at(s: Seq<u8>, p: int) -> DirTail {
    DirTail {
        parent: DiscPosition(le_u24(s, p + 3)),
        title: string_at::<19>(s, p + 6),
        name: string_at::<10>(s, p + 25),
        end_seq_num: s[p + 35],
        check_byte: s[p + 40],
    }
}

/// What is wrong with the zeros at `p`, if anything is.
pub open spec fn zeros_failure(s: Seq<u8>, p: int, count: int) -> Option<CauseView>
    decreases count,
{
    if count <= 0 {
        None
    } else if p >= s.len() {
        Some(CauseView::Truncated)
    } else if s[p] != 0 {
        Some(CauseView::Mismatch)
    } else {
        zeros_failure(s, p + 1, count - 1)
    }
}

/// Why no directory ends at `p`, if none does.
pub open spec fn tail_failure(s: Seq<u8>, p: int) -> Option<CauseView> {
    if zeros_failure(s, p, 3) is Some {
        zeros_failure(s, p, 3)
    } else if p + 36 > s.len() {
        Some(CauseView::Truncated)
    } else if magic_failure(s, p + 36) is Some {
        magic_failure(s, p + 36)
    } else if p + DIR_TAIL_SIZE > s.len() {
        Some(CauseView::Truncated)
    } else {
        None
    }
}

/// Reads bytes that have to be zero.
fn parse_zeros(input: &mut InputStream<'_>, count: usize) -> (r: Result<(), ParseError>)
    requires
        old(input).wf(),
    ensures
        final(input).wf(),
        final(input).data == old(input).data,
        ({
            let failure = zeros_failure(old(input).data@, old(input).pos as int, count as int);
            match r {
                Ok(_) => failure is None && final(input).pos == old(input).pos + count,
                Err(e) => failure is Some && e@ == bare(failure->0),
            }
        }),
{
    let mut done: usize = 0;
    while done < count
        invariant
            done <= count,
            input.wf(),
            input.data == old(input).data,
            input.pos == old(input).pos + done,
            zeros_failure(input.data@, input.pos as int, count - done) == zeros_failure(
                old(input).data@,
                old(input).pos as int,
                count as int,
            ),
        decreases count - done,
    {
        if input.pos >= input.data.len() {
            return Err(ParseError::new(Cause::Truncated));
        }
        if input.data[input.pos] != 0 {
            return Err(ParseError::new(Cause::Mismatch));
        }
        input.pos = input.pos + 1;
        done = done + 1;
    }
    Ok(())
}

impl DirTail {
    /// Reads the end of a directory.
    pub fn parse(input: &mut InputStream<'_>) -> (r: Result<DirTail, ParseError>)
        requires
            old(input).wf(),
        ensures
            final(input).wf(),
            final(input).data == old(input).data,
            ({
                let s = old(input).data@;
                let p = old(input).pos as int;
                match r {
                    Ok(tail) => {
                        &&& tail_failure(s, p) is None
                        &&& tail == tail_at(s, p)
                        &&& final(input).pos == p + DIR_TAIL_SIZE
                    },
                    Err(e) => {
                        &&& tail_failure(s, p) is Some
                        &&& e@ == bare(tail_failure(s, p)->0)
                        &&& *final(input) == *old(input)
                    },
                }
            }),
    {
        let begin: InputStream<'_> = *input;
        match DirTail::parse_fields(input) {
            Ok(tail) => Ok(tail),
            Err(e) => {
                *input = begin;
                Err(e)
            },
        }
    }

    /// Reads the end of a directory, and stops where it is not one.
    fn parse_fields(input: &mut InputStream<'_>) -> (r: Result<DirTail, ParseError>)
        requires
            old(input).wf(),
        ensures
            final(input).wf(),
            final(input).data == old(input).data,
            ({
                let s = old(input).data@;
                let p = old(input).pos as int;
                match r {
                    Ok(tail) => {
                        &&& tail_failure(s, p) is None
                        &&& tail == tail_at(s, p)
                        &&& final(input).pos == p + DIR_TAIL_SIZE
                    },
                    Err(e) => {
                        &&& tail_failure(s, p) is Some
                        &&& e@ == bare(tail_failure(s, p)->0)
                    },
                }
            }),
    {
        let p: usize = input.pos;
        match parse_zeros(input, 3) {
            Ok(_) => {},
            Err(e) => {
                return Err(e);
            },
        }
        if input.data.len() - p < 36 {
            return Err(ParseError::new(Cause::Truncated));
        }
        let parent = match DiscPosition::parse_for_new_map(input) {
            Ok(parent) => parent,
            Err(e) => {
                return Err(e);
            },
        };
        let title = FixedLenString::<MAX_TITLE_LENGTH>::read_at(input.data, p + 6);
        let name = FixedLenString::<MAX_SEGMENT_LENGTH>::read_at(input.data, p + 25);
        let end_seq_num: u8 = input.data[p + 35];
        input.pos = p + 36;
        match parse_magic_string(input) {
            Ok(_) => {},
            Err(e) => {
                return Err(e);
            },
        }
        if input.pos >= input.data.len() {
            return Err(ParseError::new(Cause::Truncated));
        }
        let check_byte: u8 = input.data[input.pos];
        input.pos = input.pos + 1;
        Ok(DirTail { parent, title, name, end_seq_num, check_byte })
    }
}

/// `arrayvec::ArrayVec`: a list that never holds more than `CAP` elements.
#[verifier::external_type_specification]
#[verifier::external_body]
#[verifier::reject_recursive_types(T)]
pub struct ExArrayVec<T, const CAP: usize>(ArrayVec<T, CAP>);

/// The elements of a list of entries, in order.
pub uninterp spec fn listed_entries(list: ArrayVec<DirEntry, SIZE_OF_DIRECTORY>) -> Seq<DirEntry>;

/// `ArrayVec::new`: a new list holds nothing.
#[verifier::external_body]
fn new_entry_list() -> (list: ArrayVec<DirEntry, SIZE_OF_DIRECTORY>)
    ensures
        listed_entries(list) == Seq::<DirEntry>::empty(),
{
    ArrayVec::new()
}

/// `ArrayVec::push`: puts an element behind the others. It panics where the list is
/// full, so there has to be room.
#[verifier::external_body]
fn push_entry(list: &mut ArrayVec<DirEntry, SIZE_OF_DIRECTORY>, entry: DirEntry)
    requires
        listed_entries(*old(list)).len() < SIZE_OF_DIRECTORY,
    ensures
        listed_entries(*final(list)) == listed_entries(*old(list)).push(entry),
{
    list.push(entry)
}

/// `ArrayVec::as_slice`: the elements of the list, in order.
#[verifier::external_body]
fn entry_slice(list: &ArrayVec<DirEntry, SIZE_OF_DIRECTORY>) -> (entries: &[DirEntry])
    ensures
        entries@ == listed_entries(*list),
{
    list.as_slice()
}

/// `ArrayVec::clone`: a list of the same elements, which are `Copy`.
#[verifier::external_body]
fn clone_entry_list(
    list: &ArrayVec<DirEntry, SIZE_OF_DIRECTORY>,
) -> (copy: ArrayVec<DirEntry, SIZE_OF_DIRECTORY>)
    ensures
        listed_entries(copy) == listed_entries(*list),
{
    list.clone()
}

/// A directory.
#[derive(Debug)]
pub struct Directory {
    pub header: DirHeader,
    pub entries: ArrayVec<DirEntry, SIZE_OF_DIRECTORY>,
    pub tail: DirTail,
}

impl Clone for Directory {
    fn clone(&self) -> (copy: Directory)
        ensures
            copy@ == self@,
    {
        Directory {
            header: self.header,
            entries: clone_entry_list(&self.entries),
            tail: self.tail,
        }
    }
}

/// A [`Directory`] with its entries as a sequence.
pub struct DirectoryView {
    pub header: DirHeader,
    pub entries: Seq<DirEntry>,
    pub tail: DirTail,
}

impl View for Directory {
    type V = DirectoryView;

    open spec fn view(&self) -> DirectoryView {
        DirectoryView {
            header: self.header,
            entries: listed_entries(self.entries),
            tail: self.tail,
        }
    }
}

/// Where entry `i` stands, when the first one stands at `q`.
pub open spec fn entry_place(q: int, i: int) -> int {
    q + DIR_ENTRY_SIZE * i
}

/// How many entries there are in all, when `i` of them have been seen: an entry
/// without a name ends the list.
pub open spec fn entry_count(s: Seq<u8>, q: int, i: int) -> int
    decreases SIZE_OF_DIRECTORY - i,
{
    if i >= SIZE_OF_DIRECTORY || entry_at(s, entry_place(q, i)).obj_name@.len() == 0 {
        i
    } else {
        entry_count(s, q, i + 1)
    }
}

/// The first `n` entries.
pub open spec fn entries_at(s: Seq<u8>, q: int, n: int) -> Seq<DirEntry> {
    Seq::new(n as nat, |i: int| entry_at(s, entry_place(q, i)))
}

/// What there is to report of the first `n` entries.
pub open spec fn faults_of_entries(s: Seq<u8>, q: int, n: int) -> Seq<FaultView>
    decreases n,
{
    if n <= 0 {
        Seq::empty()
    } else {
        faults_of_entries(s, q, n - 1) + entry_faults(s, entry_place(q, n - 1))
    }
}

/// Where the tail of a directory stands that begins at `p`.
pub open spec fn tail_place(p: int) -> int {
    p + DIR_HEADER_SIZE + SIZE_OF_DIRECTORY * DIR_ENTRY_SIZE
}

/// The bytes of a directory.
pub const DIRECTORY_SIZE: usize = 2048;

/// Why there is no directory at `p`, if there is none.
pub open spec fn directory_failure(s: Seq<u8>, p: int) -> Option<CauseView> {
    if dir_header_failure(s, p) is Some {
        dir_header_failure(s, p)
    } else if tail_place(p) > s.len() {
        Some(CauseView::Truncated)
    } else {
        tail_failure(s, tail_place(p))
    }
}

/// The directory at `p`.
pub open spec fn directory_at(s: Seq<u8>, p: int) -> DirectoryView {
    let q = p + DIR_HEADER_SIZE;
    DirectoryView {
        header: DirHeader { start_seq_num: s[p] },
        entries: entries_at(s, q, entry_count(s, q, 0)),
        tail: tail_at(s, tail_place(p)),
    }
}

/// The check byte that the bytes of the directory at `p` give.
pub open spec fn computed_check_byte(s: Seq<u8>, p: int) -> u8 {
    let q = p + DIR_HEADER_SIZE;
    check_byte(
        s.subrange(p, entry_place(q, entry_count(s, q, 0))),
        s.subrange(tail_place(p), tail_place(p) + DIR_TAIL_SIZE),
    )
}

/// What there is to report of two sequence numbers.
pub open spec fn sequence_faults(start_seq_num: u8, end_seq_num: u8) -> Seq<FaultView> {
    if start_seq_num != end_seq_num {
        seq![
            FaultView::SequenceNumberMismatch { path: Seq::empty(), start_seq_num, end_seq_num },
        ]
    } else {
        Seq::empty()
    }
}

/// What there is to report of a check byte.
pub open spec fn check_byte_faults(tail: DirTail, actual: u8) -> Seq<FaultView> {
    if actual != tail.check_byte {
        seq![
            FaultView::CheckByteFailure {
                path: seq![tail.name@],
                expected: tail.check_byte,
                actual,
            },
        ]
    } else {
        Seq::empty()
    }
}

/// What there is to report of the directory at `p`: first what the entries give,
/// then the sequence numbers, then the check byte.
pub open spec fn directory_faults(s: Seq<u8>, p: int) -> Seq<FaultView> {
    let q = p + DIR_HEADER_SIZE;
    let directory = directory_at(s, p);
    faults_of_entries(s, q, entry_count(s, q, 0)) + sequence_faults(
        directory.header.start_seq_num,
        directory.tail.end_seq_num,
    ) + check_byte_faults(directory.tail, computed_check_byte(s, p))
}

impl Directory {
    /// The entries, in order.
    pub fn entries(&self) -> (entries: &[DirEntry])
        ensures
            entries@ == self@.entries,
    {
        entry_slice(&self.entries)
    }

    /// The check byte of a directory, from its beginning, the entries in use and its
    /// tail.
    pub fn compute_checksum(start_data: &[u8], entries: &[&[u8]], tail_data: &[u8]) -> (r: u8)
        requires
            tail_data@.len() >= 5,
        ensures
            r == check_byte(start_data@ + spans(entries@), tail_data@),
    {
        let mut data: Vec<u8> = Vec::new();
        append_bytes(&mut data, start_data);
        assert(data@ =~= start_data@);
        let total: usize = entries.len();
        let mut i: usize = 0;
        assert(spans(entries@.take(0)) =~= Seq::empty()) by {
            assert(entries@.take(0).map_values(|piece: &[u8]| piece@) =~= Seq::empty());
        }
        assert(data@ =~= start_data@ + spans(entries@.take(0)));
        while i < total
            invariant
                i <= total == entries@.len(),
                data@ == start_data@ + spans(entries@.take(i as int)),
            decreases total - i,
        {
            append_bytes(&mut data, entries[i]);
            proof {
                lemma_spans_push(entries@.take(i as int), entries@[i as int]);
                assert(entries@.take(i + 1) =~= entries@.take(i as int).push(entries@[i as int]));
            }
            i = i + 1;
            assert(data@ =~= start_data@ + spans(entries@.take(i as int)));
        }
        assert(entries@.take(total as int) =~= entries@);

        let used: &[u8] = data.as_slice();
        let length: usize = used.len();
        let whole: usize = length - length % 4;
        let a: u32 = add_words(0, used, 0, whole);
        let a: u32 = add_bytes(a, used, whole, length);
        let tail_length: usize = tail_data.len();
        let end: usize = tail_length - 4;
        let odd: usize = (end - 1) % 4;
        let b: u32 = add_bytes(a, tail_data, 1, 1 + odd);
        let c: u32 = add_words(b, tail_data, 1 + odd, end);
        proof {
            assert(whole == 4 * (used@.len() as int / 4));
            assert(used@.take(whole as int) =~= used@.subrange(0, whole as int));
            assert(used@.skip(whole as int) =~= used@.subrange(whole as int, length as int));
            let rest = tail_data@.subrange(1, tail_data@.len() - 4);
            assert(rest.take(odd as int) =~= tail_data@.subrange(1, 1 + odd));
            assert(rest.skip(odd as int) =~= tail_data@.subrange(1 + odd, end as int));
        }
        fold(c)
    }

    /// Whether `results` are the entries from `i` on.
    pub open spec fn are_entries(
        results: Seq<FaultValue<DirEntry>>,
        s: Seq<u8>,
        q: int,
        i: int,
    ) -> bool {
        forall|j: int|
            0 <= j < results.len() ==> (#[trigger] results[j]).0 == entry_at(
                s,
                entry_place(q, i + j),
            ) && fault_views(results[j].1@) == entry_faults(s, entry_place(q, i + j))
    }

    /// Reads as many entries as a directory has room for.
    fn parse_entries(
        input: &mut InputStream<'_>,
    ) -> (r: Result<Vec<FaultValue<DirEntry>>, ParseError>)
        requires
            old(input).wf(),
            old(input).bits_fit(),
        ensures
            final(input).wf(),
            final(input).data == old(input).data,
            ({
                let s = old(input).data@;
                let q = old(input).pos as int;
                let end = entry_place(q, SIZE_OF_DIRECTORY as int);
                match r {
                    Ok(results) => {
                        &&& end <= s.len()
                        &&& results@.len() == SIZE_OF_DIRECTORY
                        &&& Directory::are_entries(results@, s, q, 0)
                        &&& final(input).pos == end
                    },
                    Err(e) => end > s.len() && e@ == bare(CauseView::Truncated),
                }
            }),
    {
        let ghost s = input.data@;
        let ghost q = input.pos as int;
        let mut results: Vec<FaultValue<DirEntry>> = Vec::new();
        while results.len() < SIZE_OF_DIRECTORY
            invariant
                input.wf(),
                input.bits_fit(),
                input.data == old(input).data,
                s == input.data@,
                q == old(input).pos,
                results@.len() <= SIZE_OF_DIRECTORY,
                input.pos == entry_place(q, results@.len() as int),
                Directory::are_entries(results@, s, q, 0),
            decreases SIZE_OF_DIRECTORY - results@.len(),
        {
            match DirEntry::parse(input) {
                Ok(value) => {
                    results.push(value);
                },
                Err(e) => {
                    return Err(e);
                },
            }
        }
        Ok(results)
    }

    /// Keeps the entries in front of the first one without a name, with what there
    /// is to report of them and the bytes that they stand in.
    fn keep_entries<'a>(data: &'a [u8], q: usize, results: Vec<FaultValue<DirEntry>>) -> (r: (
        ArrayVec<DirEntry, SIZE_OF_DIRECTORY>,
        Vec<Fault>,
        Vec<&'a [u8]>,
    ))
        requires
            results@.len() == SIZE_OF_DIRECTORY,
            entry_place(q as int, SIZE_OF_DIRECTORY as int) <= data@.len(),
            Directory::are_entries(results@, data@, q as int, 0),
        ensures
            ({
                let n = entry_count(data@, q as int, 0);
                &&& 0 <= n <= SIZE_OF_DIRECTORY
                &&& listed_entries(r.0) == entries_at(data@, q as int, n)
                &&& fault_views(r.1@) == faults_of_entries(data@, q as int, n)
                &&& spans(r.2@) == data@.subrange(q as int, entry_place(q as int, n))
            }),
    {
        let ghost s = data@;
        let total: usize = data.len();
        let mut rest: Vec<FaultValue<DirEntry>> = results;
        let mut entries = new_entry_list();
        let mut faults: Vec<Fault> = Vec::new();
        let mut entry_data: Vec<&'a [u8]> = Vec::new();
        let mut n: usize = 0;
        let mut ended: bool = false;
        proof {
            assert(entries_at(s, q as int, 0) =~= Seq::empty());
            assert(fault_views(faults@) =~= Seq::empty());
            assert(entry_data@.map_values(|piece: &[u8]| piece@) =~= Seq::empty());
            assert(spans(entry_data@) =~= s.subrange(q as int, q as int));
        }
        while !ended && n < SIZE_OF_DIRECTORY
            invariant
                s == data@,
                entry_place(q as int, SIZE_OF_DIRECTORY as int) <= total == data@.len(),
                n <= SIZE_OF_DIRECTORY,
                rest@.len() == SIZE_OF_DIRECTORY - n || ended,
                ended || Directory::are_entries(rest@, s, q as int, n as int),
                entry_count(s, q as int, 0) == entry_count(s, q as int, n as int),
                ended ==> entry_count(s, q as int, n as int) == n,
                listed_entries(entries) == entries_at(s, q as int, n as int),
                fault_views(faults@) == faults_of_entries(s, q as int, n as int),
                spans(entry_data@) == s.subrange(q as int, entry_place(q as int, n as int)),
            decreases SIZE_OF_DIRECTORY - n, (if ended { 0int } else { 1int }),
        {
            let ghost before = rest@;
            assert(before[0].0 == entry_at(s, entry_place(q as int, n + 0)));
            let FaultValue(entry, found) = rest.remove(0);
            if entry.obj_name.is_empty() {
                ended = true;
            } else {
                let mut found = found;
                let ghost kept = faults@;
                let ghost more = found@;
                push_entry(&mut entries, entry);
                faults.append(&mut found);
                let start: usize = q + DIR_ENTRY_SIZE * n;
                let span: &'a [u8] = vstd::slice::slice_subrange(
                    data,
                    start,
                    start + DIR_ENTRY_SIZE,
                );
                let ghost pieces = entry_data@;
                entry_data.push(span);
                proof {
                    let a = q as int;
                    let m = n as int;
                    assert(entries_at(s, a, m + 1) =~= entries_at(s, a, m).push(
                        entry_at(s, entry_place(a, m)),
                    ));
                    assert(faults@ =~= kept + more);
                    assert(fault_views(kept + more) =~= fault_views(kept) + fault_views(more));
                    lemma_spans_push(pieces, span);
                    assert(s.subrange(a, entry_place(a, m + 1)) =~= s.subrange(
                        a,
                        entry_place(a, m),
                    ) + span@);
                    assert forall|j: int| 0 <= j < rest@.len() implies (#[trigger] rest@[j]).0
                        == entry_at(s, entry_place(a, m + 1 + j)) && fault_views(rest@[j].1@)
                        == entry_faults(s, entry_place(a, m + 1 + j)) by {
                        assert(rest@[j] == before[j + 1]);
                        assert(m + 1 + j == m + (j + 1));
                    }
                }
                n = n + 1;
            }
        }
        (entries, faults, entry_data)
    }

    /// Reads a directory. What does not keep it from being read is reported.
    pub fn parse(input: &mut InputStream<'_>) -> (r: Result<FaultValue<Directory>, ParseError>)
        requires
            old(input).wf(),
            old(input).bits_fit(),
        ensures
            final(input).wf(),
            final(input).data == old(input).data,
            ({
                let s = old(input).data@;
                let p = old(input).pos as int;
                match r {
                    Ok(value) => {
                        &&& directory_failure(s, p) is None
                        &&& value.0@ == directory_at(s, p)
                        &&& fault_views(value.1@) == directory_faults(s, p)
                        &&& final(input).pos == p + DIRECTORY_SIZE
                        &&& p + DIRECTORY_SIZE <= s.len()
                    },
                    Err(e) => {
                        &&& directory_failure(s, p) is Some
                        &&& e@ == bare(directory_failure(s, p)->0)
                        &&& *final(input) == *old(input)
                    },
                }
            }),
    {
        let begin: InputStream<'_> = *input;
        let p: usize = input.pos;
        let header = match DirHeader::parse(input) {
            Ok(header) => header,
            Err(e) => {
                return Err(e);
            },
        };
        let q: usize = input.pos;
        let results = match Directory::parse_entries(input) {
            Ok(results) => results,
            Err(e) => {
                *input = begin;
                return Err(e);
            },
        };
        let t: usize = input.pos;
        let tail = match DirTail::parse(input) {
            Ok(tail) => tail,
            Err(e) => {
                *input = begin;
                return Err(e);
            },
        };
        let ghost s = input.data@;
        let (entries, kept, entry_data) = Directory::keep_entries(input.data, q, results);
        let mut faults: Vec<Fault> = kept;
        let start_data: &[u8] = vstd::slice::slice_subrange(input.data, p, q);
        let tail_data: &[u8] = vstd::slice::slice_subrange(input.data, t, t + DIR_TAIL_SIZE);
        let actual: u8 = Directory::compute_checksum(start_data, entry_data.as_slice(), tail_data);
        let ghost n = entry_count(s, q as int, 0);
        proof {
            assert(start_data@ + spans(entry_data@) =~= s.subrange(
                p as int,
                entry_place(q as int, n),
            ));
        }
        let ghost first = faults@;
        if header.start_seq_num != tail.end_seq_num {
            faults.push(
                Fault::SequenceNumberMismatch {
                    path: Path::root_path(),
                    start_seq_num: header.start_seq_num,
                    end_seq_num: tail.end_seq_num,
                },
            );
        }
        let ghost second = faults@;
        proof {
            assert(fault_views(second) =~= fault_views(first) + sequence_faults(
                header.start_seq_num,
                tail.end_seq_num,
            ));
        }
        if actual != tail.check_byte {
            let mut segments: Vec<FixedLenString<10>> = Vec::new();
            segments.push(tail.name);
            let path = Path::from_segments(segments.as_slice());
            assert(path@ =~= seq![tail.name@]);
            faults.push(Fault::CheckByteFailure { path, expected: tail.check_byte, actual });
        }
        proof {
            assert(fault_views(faults@) =~= fault_views(second) + check_byte_faults(tail, actual));
        }
        Ok(FaultValue(Directory { header, entries, tail }, faults))
    }
}

/// There is nothing to report of some entries where each of their attribute bytes has
/// a meaning.
proof fn lemma_faultless_entries(s: Seq<u8>, q: int, n: int)
    ensures
        faults_of_entries(s, q, n).len() == 0 <==> forall|i: int|
            0 <= i < n ==> s[#[trigger] entry_place(q, i) + 25] < 0x40,
    decreases n,
{
    if n > 0 {
        lemma_faultless_entries(s, q, n - 1);
        assert(faults_of_entries(s, q, n).len() == faults_of_entries(s, q, n - 1).len()
            + entry_faults(s, entry_place(q, n - 1)).len());
    }
}

/// There is nothing to report of a directory exactly where its two sequence numbers
/// are the same, its check byte is the one that its bytes give, and the attribute
/// byte of each of its entries has a meaning.
pub proof fn lemma_faultless_directory(s: Seq<u8>, p: int)
    ensures
        ({
            let q = p + DIR_HEADER_SIZE;
            let tail = tail_at(s, tail_place(p));
            directory_faults(s, p).len() == 0 <==> {
                &&& s[p] == tail.end_seq_num
                &&& computed_check_byte(s, p) == tail.check_byte
                &&& forall|i: int|
                    0 <= i < entry_count(s, q, 0) ==> s[#[trigger] entry_place(q, i) + 25] < 0x40
            }
        }),
{
    let q = p + DIR_HEADER_SIZE;
    lemma_faultless_entries(s, q, entry_count(s, q, 0));
}

/// The entries of a directory are those in front of the first one without a name.
pub proof fn lemma_entry_count(s: Seq<u8>, q: int, i: int)
    requires
        0 <= i <= SIZE_OF_DIRECTORY,
    ensures
        ({
            let n = entry_count(s, q, i);
            &&& i <= n <= SIZE_OF_DIRECTORY
            &&& forall|j: int|
                i <= j < n ==> (#[trigger] entry_at(s, entry_place(q, j))).obj_name@.len() > 0
            &&& n < SIZE_OF_DIRECTORY ==> entry_at(s, entry_place(q, n)).obj_name@.len() == 0
        }),
    decreases SIZE_OF_DIRECTORY - i,
{
    if i < SIZE_OF_DIRECTORY && entry_at(s, entry_place(q, i)).obj_name@.len() > 0 {
        lemma_entry_count(s, q, i + 1);
    }
}

} // verus!
