//! What values stand for: the parts that they were made of.

use vstd::prelude::*;

use crate::flat_map;
use crate::new_map::allocation::AllocationMap;
use crate::new_map::disc_structures::{LeadingMapBlock, MapBlock, NewMap};
use crate::new_map::filesystem::{listed_entries, DirEntry, Directory};
use crate::new_map::path::{raw_segments, Path};
use crate::new_map::sys_structures::{file_view, way_view, FormatE};
use crate::new_map::tree::{FileObject, FileObjectView, FileTree};
use crate::new_map::{
    bare, fault_views, Cause, CauseView, Fault, FaultValue, FaultView, IoError, IoErrorView,
    ParseError,
};

verus! {

/// A path stands for its names, one for each part, in order.
pub proof fn law_path_view(path: Path)
    ensures
        path@.len() == path.0@.len(),
        forall|i: int| 0 <= i < path.0@.len() ==> #[trigger] path@[i] == path.0@[i]@,
        raw_segments(path.0@).len() == path.0@.len(),
        forall|i: int|
            0 <= i < path.0@.len() ==> #[trigger] raw_segments(path.0@)[i] == path.0@[i].0@,
{
}

/// A fault stands for what it reports, with the names of its path.
pub proof fn law_fault_view(fault: Fault)
    ensures
        match fault {
            Fault::InvalidFreeLink(link) => fault@ == FaultView::InvalidFreeLink(link),
            Fault::BrokenFreeChain { origin, dest_bit_offset } => fault@ == (
            FaultView::BrokenFreeChain { origin, dest_bit_offset }),
            Fault::InvalidAttr { location, path, attr_value } => fault@ == (FaultView::InvalidAttr {
                location,
                path: path@,
                attr_value,
            }),
            Fault::InvalidRoot { root_link, sector_size } => fault@ == (FaultView::InvalidRoot {
                root_link,
                sector_size,
            }),
            Fault::InvalidDir { path } => fault@ == (FaultView::InvalidDir { path: path@ }),
            Fault::MagicStringFailure(bytes) => fault@ == FaultView::MagicStringFailure(bytes@),
            Fault::SequenceNumberMismatch { path, start_seq_num, end_seq_num } => fault@ == (
            FaultView::SequenceNumberMismatch { path: path@, start_seq_num, end_seq_num }),
            Fault::CheckByteFailure { path, expected, actual } => fault@ == (
            FaultView::CheckByteFailure { path: path@, expected, actual }),
            Fault::UnacceptableSectorSize(size) => fault@ == FaultView::UnacceptableSectorSize(
                size,
            ),
            Fault::ZoneCheckFailure { expected, actual } => fault@ == (
            FaultView::ZoneCheckFailure { expected, actual }),
            Fault::CrossCheckFailure(value) => fault@ == FaultView::CrossCheckFailure(value),
        },
{
}

/// An error stands for what it reports, and so do its parts; nothing of a list of faults is
/// lost.
pub proof fn law_error_views(error: IoError, failure: ParseError, faults: Seq<Fault>)
    ensures
        match error {
            IoError::MissingFragment(position) => error@ == IoErrorView::MissingFragment(position),
            IoError::MissingTarget(path) => error@ == IoErrorView::MissingTarget(path@),
            IoError::InvalidTarget(path) => error@ == IoErrorView::InvalidTarget(path@),
        },
        match failure.cause {
            Cause::Incomplete => failure@.cause == CauseView::Incomplete,
            Cause::Truncated => failure@.cause == CauseView::Truncated,
            Cause::Mismatch => failure@.cause == CauseView::Mismatch,
            Cause::Fault(fault) => failure@.cause == CauseView::Fault(fault@),
            Cause::Defect(defect) => failure@.cause == CauseView::Defect(defect),
        },
        failure.context is None ==> failure@.context is None && bare(failure@.cause) == failure@,
        failure.context matches Some(fault) ==> failure@.context == Some(fault@),
        fault_views(faults).len() == faults.len(),
        forall|i: int| 0 <= i < faults.len() ==> #[trigger] fault_views(faults)[i] == faults[i]@,
{
}

/// An answer stands for the entry and all of the contents that were handed out, or for the
/// reason why there are none.
pub proof fn law_answer_views(
    entry: DirEntry,
    contents: Vec<u8>,
    faults: Vec<Fault>,
    error: IoError,
    failure: ParseError,
)
    ensures
        file_view(Ok(FaultValue(Ok((entry, contents)), faults))) matches Ok(Ok((found, bytes)))
            && found == entry && bytes == contents@,
        file_view(Ok(FaultValue(Err(error), faults))) matches Ok(Err(e)) && e == error@,
        file_view(Err(failure)) matches Err(e) && e == failure@,
        way_view(Ok(Ok(()))) matches Ok(Ok(_)),
        way_view(Ok(Err(error))) matches Ok(Err(e)) && e == error@,
        way_view(Err(failure)) matches Err(e) && e == failure@,
{
}

/// The map of a disc stands for its zones, the first one and the others in order.
pub proof fn law_map_views(
    map: NewMap,
    leading: LeadingMapBlock,
    block: MapBlock,
    allocations: AllocationMap,
)
    ensures
        map@.leading_block == map.leading_block@,
        map@.blocks.len() == map.blocks@.len(),
        forall|i: int| 0 <= i < map.blocks@.len() ==> #[trigger] map@.blocks[i] == map.blocks@[i]@,
        leading@.header == leading.header,
        leading@.disc_record == leading.disc_record,
        leading@.allocations == leading.allocations@,
        leading@.unused == leading.unused@,
        block@.header == block.header,
        block@.allocations == block.allocations@,
        block@.unused == block.unused@,
        allocations@.fragments == allocations.fragments@,
        allocations@.object_regions.dom() == allocations.object_regions@.dom(),
        forall|id: u16| #[trigger]
            allocations.object_regions@.contains_key(id) ==> allocations@.object_regions[id]
                == allocations.object_regions@[id]@,
{
}

/// A list of fragments stands for them, with what stands before and behind it.
pub proof fn law_flat_views(leading: flat_map::LeadingMapBlock, block: flat_map::MapBlock)
    ensures
        leading@.header == leading.header,
        leading@.disc_record == leading.disc_record,
        leading@.allocations == leading.allocations.fragments@,
        leading@.unused == leading.unused@,
        block@.header == block.header,
        block@.allocations == block.allocations.fragments@,
        block@.unused == block.unused@,
{
}

/// A disc stands for its image, its map, what has been read of it and what there is to report
/// of that.
pub proof fn law_disc_view(disc: FormatE, directory: Directory, object: FileObject)
    ensures
        disc@.image == disc.image@,
        disc@.map == disc.map@,
        disc@.tree == disc.tree@,
        disc@.faults == fault_views(disc.faults@),
        directory@.header == directory.header,
        directory@.tail == directory.tail,
        directory@.entries == listed_entries(directory.entries),
        object matches FileObject::Dir(inside) ==> object@ == FileObjectView::Dir((*inside)@),
        object matches FileObject::File(inside) ==> object@ == FileObjectView::File(inside),
{
}

/// A tree leads from each of its paths to what was put there, and from no other path to
/// anything.
pub proof fn law_tree_view(tree: FileTree, path: Seq<Seq<u8>>)
    requires
        tree.wf(),
    ensures
        forall|i: int|
            #![trigger tree.entries@[i]]
            0 <= i < tree.entries@.len() && tree.entries@[i].0@ == path ==> tree@.contains_key(path)
                && tree@[path] == tree.entries@[i].1@,
        (forall|i: int|
            0 <= i < tree.entries@.len() ==> (#[trigger] tree.entries@[i]).0@ != path)
            ==> !tree@.contains_key(path),
        tree.names().len() == tree.entries@.len(),
        forall|i: int|
            0 <= i < tree.entries@.len() ==> #[trigger] tree.names()[i] == tree.entries@[i].0@,
{
    assert forall|i: int|
        #![trigger tree.entries@[i]]
        0 <= i < tree.entries@.len() && tree.entries@[i].0@
            == path implies tree@.contains_key(path) && tree@[path] == tree.entries@[i].1@ by {
        crate::new_map::tree::lemma_entry(tree.entries@, i);
    }
    if tree@.contains_key(path) {
        let i = choose|i: int| crate::new_map::tree::is_at(tree.entries@, i, path);
        assert(tree.entries@[i].0@ == path);
    }
}

} // verus!
