//! The "new map" disc formats, as FileCore lays them out.

pub mod allocation;
pub mod bits;
pub mod chain;
pub mod checksum;
pub mod disc_structures;
pub mod filesystem;
pub mod listing;
pub mod lookup;
pub mod path;
pub mod record;
pub mod sys_structures;
pub mod tree;
pub mod util;

use vstd::arithmetic::power2::*;
use vstd::prelude::*;
use vstd::string::*;

pub use self::path::Path;
use self::path::path_text;
use self::record::checked_power_of_two;
use self::util::{BitPosition, DiscPosition};
use crate::text::{
    decimal_text, decoded, escape_debug, escape_debug_text, from_utf8_lossy, padded_text,
    push_decimal, push_padded, push_radix, radix_text,
};

verus! {

/// Whether values that a sound disc never holds are reported or refused.
pub const STRICT_MODE: bool = true;

/// Something about a disc that is not as the format wants it.
#[derive(Debug)]
pub enum Fault {
    /// The free link of a zone does not point at a fragment.
    InvalidFreeLink(u16),
    /// A free fragment points at a place where no fragment starts.
    BrokenFreeChain { origin: BitPosition, dest_bit_offset: BitPosition },
    /// A directory entry has attribute bits that no attribute uses.
    InvalidAttr { location: BitPosition, path: Path, attr_value: u8 },
    /// The root directory could not be read.
    InvalidRoot { root_link: DiscPosition, sector_size: usize },
    /// A directory below the root could not be read.
    InvalidDir { path: Path },
    /// Neither `Hugo` nor `Nick` where one of them belongs.
    MagicStringFailure([u8; 4]),
    /// The two sequence numbers of a directory differ.
    SequenceNumberMismatch { path: Path, start_seq_num: u8, end_seq_num: u8 },
    /// The check byte of a directory is not the one that its bytes give.
    CheckByteFailure { path: Path, expected: u8, actual: u8 },
    /// The (binary logarithm of the) sector size is not one that discs have.
    UnacceptableSectorSize(u8),
    /// The check byte of a zone is wrong.
    ZoneCheckFailure { expected: u8, actual: u8 },
    /// The cross checks of the zones do not agree.
    CrossCheckFailure(u8),
}

impl Clone for Fault {
    fn clone(&self) -> (copy: Fault)
        ensures
            copy@ == self@,
    {
        match self {
            Fault::InvalidFreeLink(link) => Fault::InvalidFreeLink(*link),
            Fault::BrokenFreeChain { origin, dest_bit_offset } => Fault::BrokenFreeChain {
                origin: *origin,
                dest_bit_offset: *dest_bit_offset,
            },
            Fault::InvalidAttr { location, path, attr_value } => Fault::InvalidAttr {
                location: *location,
                path: path.clone(),
                attr_value: *attr_value,
            },
            Fault::InvalidRoot { root_link, sector_size } => Fault::InvalidRoot {
                root_link: *root_link,
                sector_size: *sector_size,
            },
            Fault::InvalidDir { path } => Fault::InvalidDir { path: path.clone() },
            Fault::MagicStringFailure(bytes) => Fault::MagicStringFailure(*bytes),
            Fault::SequenceNumberMismatch { path, start_seq_num, end_seq_num } =>
                Fault::SequenceNumberMismatch {
                    path: path.clone(),
                    start_seq_num: *start_seq_num,
                    end_seq_num: *end_seq_num,
                },
            Fault::CheckByteFailure { path, expected, actual } => Fault::CheckByteFailure {
                path: path.clone(),
                expected: *expected,
                actual: *actual,
            },
            Fault::UnacceptableSectorSize(size) => Fault::UnacceptableSectorSize(*size),
            Fault::ZoneCheckFailure { expected, actual } => Fault::ZoneCheckFailure {
                expected: *expected,
                actual: *actual,
            },
            Fault::CrossCheckFailure(value) => Fault::CrossCheckFailure(*value),
        }
    }
}

/// Copies of the faults from place `from` on.
pub fn clone_faults(faults: &[Fault], from: usize) -> (copies: Vec<Fault>)
    requires
        from <= faults@.len(),
    ensures
        fault_views(copies@) == fault_views(faults@).skip(from as int),
{
    let mut copies: Vec<Fault> = Vec::new();
    let mut i: usize = from;
    while i < faults.len()
        invariant
            from <= i <= faults@.len(),
            copies@.len() == i - from,
            forall|j: int| 0 <= j < i - from ==> (#[trigger] copies@[j])@ == faults@[from + j]@,
        decreases faults@.len() - i,
    {
        copies.push(faults[i].clone());
        i = i + 1;
    }
    assert(fault_views(copies@) =~= fault_views(faults@).skip(from as int));
    copies
}

/// A [`Fault`] with its path as a list of names.
pub enum FaultView {
    InvalidFreeLink(u16),
    BrokenFreeChain { origin: BitPosition, dest_bit_offset: BitPosition },
    InvalidAttr { location: BitPosition, path: Seq<Seq<u8>>, attr_value: u8 },
    InvalidRoot { root_link: DiscPosition, sector_size: usize },
    InvalidDir { path: Seq<Seq<u8>> },
    MagicStringFailure(Seq<u8>),
    SequenceNumberMismatch { path: Seq<Seq<u8>>, start_seq_num: u8, end_seq_num: u8 },
    CheckByteFailure { path: Seq<Seq<u8>>, expected: u8, actual: u8 },
    UnacceptableSectorSize(u8),
    ZoneCheckFailure { expected: u8, actual: u8 },
    CrossCheckFailure(u8),
}

impl View for Fault {
    type V = FaultView;

    open spec fn view(&self) -> FaultView {
        match *self {
            Fault::InvalidFreeLink(link) => FaultView::InvalidFreeLink(link),
            Fault::BrokenFreeChain { origin, dest_bit_offset } => FaultView::BrokenFreeChain {
                origin,
                dest_bit_offset,
            },
            Fault::InvalidAttr { location, path, attr_value } => FaultView::InvalidAttr {
                location,
                path: path@,
                attr_value,
            },
            Fault::InvalidRoot { root_link, sector_size } => FaultView::InvalidRoot {
                root_link,
                sector_size,
            },
            Fault::InvalidDir { path } => FaultView::InvalidDir { path: path@ },
            Fault::MagicStringFailure(bytes) => FaultView::MagicStringFailure(bytes@),
            Fault::SequenceNumberMismatch { path, start_seq_num, end_seq_num } =>
                FaultView::SequenceNumberMismatch { path: path@, start_seq_num, end_seq_num },
            Fault::CheckByteFailure { path, expected, actual } => FaultView::CheckByteFailure {
                path: path@,
                expected,
                actual,
            },
            Fault::UnacceptableSectorSize(size) => FaultView::UnacceptableSectorSize(size),
            Fault::ZoneCheckFailure { expected, actual } => FaultView::ZoneCheckFailure {
                expected,
                actual,
            },
            Fault::CrossCheckFailure(value) => FaultView::CrossCheckFailure(value),
        }
    }
}

/// A byte in hexadecimal, in two places.
pub open spec fn byte_text(b: u8) -> Seq<char> {
    padded_text(radix_text(b as nat, 16, true), 2, ' ')
}

impl FaultView {
    /// Whether there are words for the fault: a sector size is told in bytes, and has to
    /// be a number.
    pub open spec fn has_text(self) -> bool {
        self matches FaultView::UnacceptableSectorSize(size) ==> pow2(size as nat) <= usize::MAX
    }

    /// The fault in words.
    pub open spec fn text(self) -> Seq<char> {
        match self {
            FaultView::InvalidFreeLink(link) => "Free link value 0x"@ + padded_text(
                radix_text(link as nat, 16, false),
                4,
                '0',
            ) + " did not point at valid fragment"@,
            FaultView::BrokenFreeChain { origin, dest_bit_offset } =>
                "Free fragment block at offset "@ + origin.debug_text()
                + " bits points to offset "@ + dest_bit_offset.debug_text()
                + " bits which does not contain a fragment"@,
            FaultView::InvalidAttr { location: _, path, attr_value } => "File "@ + path_text(path)
                + " has invalid attribute byte: "@ + radix_text(attr_value as nat, 2, false),
            FaultView::InvalidRoot { .. } => "Could not retrieve root directory"@,
            FaultView::InvalidDir { path } => "Could not retrieve directory "@ + path_text(path),
            FaultView::MagicStringFailure(bytes) => "Expected 'Nick' or 'Hugo', found "@
                + escape_debug_text(decoded(bytes)),
            FaultView::SequenceNumberMismatch { path, start_seq_num, end_seq_num } =>
                "Directory "@ + path_text(path) + " began with sequence number 0x"@
                + radix_text(start_seq_num as nat, 16, true) + " but ended with 0x"@
                + radix_text(end_seq_num as nat, 16, true),
            FaultView::CheckByteFailure { path, expected, actual } => "Directory "@ + path_text(
                path,
            ) + " gives a check byte of "@ + byte_text(actual) + ", but holds "@ + byte_text(
                expected,
            ),
            FaultView::UnacceptableSectorSize(size) => "Detected sector size ("@ + decimal_text(
                pow2(size as nat),
            ) + ") was too big or small to be plausible"@,
            FaultView::ZoneCheckFailure { expected, actual } =>
                "Calculated a zone check value of "@ + byte_text(actual) + ", but expected "@
                + byte_text(expected),
            FaultView::CrossCheckFailure(value) => "Map had a cross check failure of "@
                + byte_text(value),
        }
    }
}

impl Fault {
    /// The fault in words.
    pub open spec fn text(&self) -> Seq<char> {
        self@.text()
    }

    /// The fault in words.
    pub fn to_string(&self) -> (s: String)
        requires
            self@.has_text(),
        ensures
            s@ == self.text(),
    {
        let mut s = String::new();
        match self {
            Fault::InvalidFreeLink(link) => {
                s.append("Free link value 0x");
                push_padded(&mut s, *link as u64, 16, false, 4, '0');
                s.append(" did not point at valid fragment");
            },
            Fault::BrokenFreeChain { origin, dest_bit_offset } => {
                s.append("Free fragment block at offset ");
                s.append(origin.debug_string().as_str());
                s.append(" bits points to offset ");
                s.append(dest_bit_offset.debug_string().as_str());
                s.append(" bits which does not contain a fragment");
            },
            Fault::InvalidAttr { location: _, path, attr_value } => {
                s.append("File ");
                s.append(path.to_string().as_str());
                s.append(" has invalid attribute byte: ");
                push_radix(&mut s, *attr_value as u64, 2, false);
            },
            Fault::InvalidRoot { .. } => {
                s.append("Could not retrieve root directory");
            },
            Fault::InvalidDir { path } => {
                s.append("Could not retrieve directory ");
                s.append(path.to_string().as_str());
            },
            Fault::MagicStringFailure(bytes) => {
                s.append("Expected 'Nick' or 'Hugo', found ");
                let found = from_utf8_lossy(bytes.as_slice());
                s.append(escape_debug(found.as_str()).as_str());
            },
            Fault::SequenceNumberMismatch { path, start_seq_num, end_seq_num } => {
                s.append("Directory ");
                s.append(path.to_string().as_str());
                s.append(" began with sequence number 0x");
                push_radix(&mut s, *start_seq_num as u64, 16, true);
                s.append(" but ended with 0x");
                push_radix(&mut s, *end_seq_num as u64, 16, true);
            },
            Fault::CheckByteFailure { path, expected, actual } => {
                s.append("Directory ");
                s.append(path.to_string().as_str());
                s.append(" gives a check byte of ");
                push_padded(&mut s, *actual as u64, 16, true, 2, ' ');
                s.append(", but holds ");
                push_padded(&mut s, *expected as u64, 16, true, 2, ' ');
            },
            Fault::UnacceptableSectorSize(size) => {
                s.append("Detected sector size (");
                if let Some(bytes) = checked_power_of_two(*size as usize) {
                    push_decimal(&mut s, bytes as u64);
                }
                s.append(") was too big or small to be plausible");
            },
            Fault::ZoneCheckFailure { expected, actual } => {
                s.append("Calculated a zone check value of ");
                push_padded(&mut s, *actual as u64, 16, true, 2, ' ');
                s.append(", but expected ");
                push_padded(&mut s, *expected as u64, 16, true, 2, ' ');
            },
            Fault::CrossCheckFailure(value) => {
                s.append("Map had a cross check failure of ");
                push_padded(&mut s, *value as u64, 16, true, 2, ' ');
            },
        }
        assert(s@ =~= self.text());
        s
    }
}

/// The faults of a list, each by its view.
pub open spec fn fault_views(faults: Seq<Fault>) -> Seq<FaultView> {
    faults.map_values(|f: Fault| f@)
}

/// Why a path leads to nothing that can be read.
#[derive(Debug, Clone)]
pub enum IoError {
    /// No fragment has the number that the file is to be found under.
    MissingFragment(DiscPosition),
    /// Nothing has this path.
    MissingTarget(Path),
    /// Something has this path, but not of the kind that was asked for.
    InvalidTarget(Path),
}

/// An [`IoError`] with its path as a list of names.
pub enum IoErrorView {
    MissingFragment(DiscPosition),
    MissingTarget(Seq<Seq<u8>>),
    InvalidTarget(Seq<Seq<u8>>),
}

impl View for IoError {
    type V = IoErrorView;

    open spec fn view(&self) -> IoErrorView {
        match *self {
            IoError::MissingFragment(position) => IoErrorView::MissingFragment(position),
            IoError::MissingTarget(path) => IoErrorView::MissingTarget(path@),
            IoError::InvalidTarget(path) => IoErrorView::InvalidTarget(path@),
        }
    }
}

impl IoErrorView {
    /// The error in words.
    pub open spec fn text(self) -> Seq<char> {
        match self {
            IoErrorView::MissingFragment(position) => "Could not find indirect disc position "@
                + position.debug_text(),
            IoErrorView::MissingTarget(path) => "No entity with path "@ + path_text(path),
            IoErrorView::InvalidTarget(path) => "Path "@ + path_text(path)
                + " did exist but did not have requested type"@,
        }
    }
}

impl IoError {
    /// The error in words.
    pub open spec fn text(&self) -> Seq<char> {
        self@.text()
    }

    /// The error in words.
    pub fn to_string(&self) -> (s: String)
        ensures
            s@ == self.text(),
    {
        let mut s = String::new();
        match self {
            IoError::MissingFragment(position) => {
                s.append("Could not find indirect disc position ");
                s.append(position.debug_string().as_str());
            },
            IoError::MissingTarget(path) => {
                s.append("No entity with path ");
                s.append(path.to_string().as_str());
            },
            IoError::InvalidTarget(path) => {
                s.append("Path ");
                s.append(path.to_string().as_str());
                s.append(" did exist but did not have requested type");
            },
        }
        assert(s@ =~= self.text());
        s
    }
}

/// What a disc says that cannot be followed at all: there is no number, no
/// fragment or no byte for it.
#[derive(Debug, Clone, Copy, PartialEq, Eq, Structural)]
pub enum Defect {
    /// The disc record describes zones, allocation units or numbers of disc objects that
    /// cannot exist, or does not tell the order of fragments.
    Geometry,
    /// A fragment lies beyond what an offset can express.
    Oversize,
    /// No fragment has the number that a directory is to be found under.
    LostDirectory,
    /// A directory or the contents of a file lie outside the image.
    OutsideImage,
}

/// Why a structure could not be read.
#[derive(Debug, Clone)]
pub enum Cause {
    /// The bit stream ended inside an allocation map.
    Incomplete,
    /// The image ends inside the structure.
    Truncated,
    /// A byte is not the one that belongs there.
    Mismatch,
    /// A value that the format rules out.
    Fault(Fault),
    /// A value that cannot be followed.
    Defect(Defect),
}

/// A [`Cause`] with the view of its fault.
pub enum CauseView {
    Incomplete,
    Truncated,
    Mismatch,
    Fault(FaultView),
    Defect(Defect),
}

impl View for Cause {
    type V = CauseView;

    open spec fn view(&self) -> CauseView {
        match *self {
            Cause::Incomplete => CauseView::Incomplete,
            Cause::Truncated => CauseView::Truncated,
            Cause::Mismatch => CauseView::Mismatch,
            Cause::Fault(fault) => CauseView::Fault(fault@),
            Cause::Defect(defect) => CauseView::Defect(defect),
        }
    }
}

/// A failure to read the disc, with what was being read where that is known.
#[derive(Debug, Clone)]
pub struct ParseError {
    pub cause: Cause,
    pub context: Option<Fault>,
}

/// A [`ParseError`] with the views of its parts.
pub struct ParseErrorView {
    pub cause: CauseView,
    pub context: Option<FaultView>,
}

impl View for ParseError {
    type V = ParseErrorView;

    open spec fn view(&self) -> ParseErrorView {
        ParseErrorView {
            cause: self.cause@,
            context: match self.context {
                Some(fault) => Some(fault@),
                None => None,
            },
        }
    }
}

impl ParseError {
    /// A failure that nothing more is known about.
    pub fn new(cause: Cause) -> (error: ParseError)
        ensures
            error@ == bare(cause@),
    {
        ParseError { cause, context: None }
    }
}

/// A failure without a context.
pub open spec fn bare(cause: CauseView) -> ParseErrorView {
    ParseErrorView { cause, context: None }
}

/// A value that was read in spite of some faults, which come with it.
#[derive(Debug, Clone)]
pub struct FaultValue<T>(pub T, pub Vec<Fault>);

impl<T> FaultValue<T> {
    /// A value without faults.
    pub fn from(value: T) -> (pair: FaultValue<T>)
        ensures
            pair.0 == value,
            pair.1@ == Seq::<Fault>::empty(),
    {
        FaultValue(value, Vec::new())
    }
}

} // verus!
