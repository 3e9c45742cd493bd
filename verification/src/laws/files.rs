//! Where directories and files are found, and what a disc holds under a path.

use vstd::arithmetic::power2::*;
use vstd::prelude::*;

use super::directories::{holds_directory, law_directory_is_read};
use crate::new_map::allocation::{
    belongs_to, first_block, is_first_block, lemma_first_block, on_disc, stands_for, FragmentBlock,
};
use crate::new_map::disc_structures::NewMapView;
use crate::new_map::filesystem::{directory_at, directory_faults};
use crate::new_map::sys_structures::{directory_place, retrieved, root_of};
use crate::new_map::util::{DiscPosition, FragmentId};
use crate::new_map::FaultView;

verus! {

/// The number of the object that an address names.
pub open spec fn object_named(address: u32) -> int {
    (address as int / 256) % 32768
}

/// How many sectors behind the beginning of its object an address lies.
pub open spec fn sectors_behind(address: u32) -> int {
    let low = address as int % 256;
    if low == 0 {
        0
    } else {
        low - 1
    }
}

/// Whether the block at `k` is the one to look at for a number: the first one that has it,
/// where blocks of free space count only if no others have it.
pub open spec fn is_block_for(blocks: Map<usize, FragmentBlock>, k: usize, id: int) -> bool {
    &&& blocks.contains_key(k)
    &&& blocks[k].id == id
    &&& forall|j: usize| #[trigger]
        blocks.contains_key(j) && blocks[j].id == id ==> {
            &&& blocks[k].free_space ==> blocks[j].free_space
            &&& blocks[k].free_space == blocks[j].free_space ==> k <= j
        }
}

proof fn lemma_block_for(blocks: Map<usize, FragmentBlock>, k: usize, id: FragmentId)
    ensures
        is_block_for(blocks, k, id as int) <==> is_first_block(blocks, id, k),
{
    if is_block_for(blocks, k, id as int) {
        if on_disc(blocks, id) && blocks[k].free_space {
            let j = choose|j: usize| belongs_to(blocks, j, id);
            assert(blocks.contains_key(j) && blocks[j].id == id);
        }
        assert forall|j: usize| #[trigger] stands_for(blocks, j, id) implies k <= j by {
            assert(blocks.contains_key(j) && blocks[j].id == id);
            if !blocks[k].free_space {
                assert(belongs_to(blocks, k, id));
            }
        }
    }
    if is_first_block(blocks, id, k) {
        assert(stands_for(blocks, k, id));
        assert forall|j: usize| #[trigger]
            blocks.contains_key(j) && blocks[j].id == id implies {
            &&& blocks[k].free_space ==> blocks[j].free_space
            &&& blocks[k].free_space == blocks[j].free_space ==> k <= j
        } by {
            if !blocks[j].free_space {
                assert(belongs_to(blocks, j, id));
            }
            if blocks[k].free_space == blocks[j].free_space {
                assert(stands_for(blocks, j, id));
            }
        }
    }
}

/// There is a block to look at for a number exactly where some block has it, and that is
/// the one that is found.
pub proof fn law_first_block(blocks: Map<usize, FragmentBlock>, id: FragmentId)
    ensures
        first_block(blocks, id) is None <==> forall|k: usize| #[trigger]
            blocks.contains_key(k) ==> blocks[k].id != id,
        first_block(blocks, id) matches Some(block) ==> exists|k: usize| #[trigger]
            is_block_for(blocks, k, id as int) && blocks[k] == block,
        forall|k: usize| #[trigger]
            is_block_for(blocks, k, id as int) ==> first_block(blocks, id) == Some(blocks[k]),
{
    lemma_first_block(blocks, id);
    if let Some(block) = first_block(blocks, id) {
        let k = choose|k: usize| #[trigger] is_first_block(blocks, id, k) && blocks[k] == block;
        lemma_block_for(blocks, k, id);
        assert(blocks.contains_key(k));
    }
    assert forall|k: usize| #[trigger] is_block_for(blocks, k, id as int) implies first_block(
        blocks,
        id,
    ) == Some(blocks[k]) by {
        lemma_block_for(blocks, k, id);
        let j = choose|j: usize| is_first_block(blocks, id, j);
        lemma_block_for(blocks, j, id);
        assert(stands_for(blocks, j, id) && stands_for(blocks, k, id));
        assert(j <= k && k <= j);
    }
}

/// Whether an address of a directory leads to byte `place` of the image: to the beginning of
/// the block for its object, and as many sectors further as it says. A sector has two to the
/// power of `log2_sec_size` bytes.
pub open spec fn leads_to_byte(map: NewMapView, address: u32, place: int) -> bool {
    let blocks = map.leading_block.allocations.fragments;
    let sector = pow2(map.leading_block.disc_record.log2_sec_size as nat);
    exists|k: usize| #[trigger]
        is_block_for(blocks, k, object_named(address)) && place == blocks[k].disk_region.start
            + sectors_behind(address) * sector
}

/// An address leads to one byte at most.
pub proof fn law_one_byte(map: NewMapView, address: u32, a: int, b: int)
    requires
        leads_to_byte(map, address, a),
        leads_to_byte(map, address, b),
    ensures
        a == b,
{
    let id = object_named(address) as FragmentId;
    law_first_block(map.leading_block.allocations.fragments, id);
}

pub proof fn lemma_place(map: NewMapView, address: u32, place: int)
    ensures
        leads_to_byte(map, address, place) <==> directory_place(
            map,
            DiscPosition(address),
            map.sector_size(),
        ) == Some(place),
{
    let blocks = map.leading_block.allocations.fragments;
    let id = object_named(address) as FragmentId;
    law_first_block(blocks, id);
    if leads_to_byte(map, address, place) {
        let k = choose|k: usize| #[trigger]
            is_block_for(blocks, k, object_named(address)) && place == blocks[k].disk_region.start
                + sectors_behind(address) * pow2(
                map.leading_block.disc_record.log2_sec_size as nat,
            );
        assert(first_block(blocks, id) == Some(blocks[k]));
    }
    if directory_place(map, DiscPosition(address), map.sector_size()) == Some(place) {
        let block = first_block(blocks, id)->0;
        let k = choose|k: usize| #[trigger]
            is_block_for(blocks, k, id as int) && blocks[k] == block;
        assert(is_block_for(blocks, k, object_named(address)));
    }
}

/// A directory that an address leads to is found, and what is found stands where the
/// address leads to.
pub proof fn law_directories_are_found(
    image: Seq<u8>,
    map: NewMapView,
    address: u32,
    place: int,
    context: Option<FaultView>,
)
    requires
        leads_to_byte(map, address, place),
    ensures
        ({
            let found = retrieved(
                image,
                map,
                DiscPosition(address),
                map.sector_size(),
                context,
            );
            &&& found is Ok <==> holds_directory(image, place)
            &&& found matches Ok((directory, faults)) ==> {
                &&& directory == directory_at(image, place)
                &&& faults == directory_faults(image, place)
            }
        }),
{
    lemma_place(map, address, place);
    let blocks = map.leading_block.allocations.fragments;
    assert(place >= 0) by {
        let k = choose|k: usize| #[trigger]
            is_block_for(blocks, k, object_named(address)) && place == blocks[k].disk_region.start
                + sectors_behind(address) * pow2(
                map.leading_block.disc_record.log2_sec_size as nat,
            );
        let (a, b) = (
            sectors_behind(address),
            pow2(map.leading_block.disc_record.log2_sec_size as nat) as int,
        );
        assert(a * b >= 0) by (nonlinear_arith)
            requires
                a >= 0,
                b >= 0,
        ;
    }
    law_directory_is_read(image, place);
}

/// Where an address leads to no byte there is no directory.
pub proof fn law_directories_elsewhere(
    image: Seq<u8>,
    map: NewMapView,
    address: u32,
    context: Option<FaultView>,
)
    requires
        forall|place: int| !leads_to_byte(map, address, place),
    ensures
        retrieved(image, map, DiscPosition(address), map.sector_size(), context) is Err,
{
    if let Some(place) = directory_place(map, DiscPosition(address), map.sector_size()) {
        lemma_place(map, address, place);
    }
}

/// The root directory of a disc is the one that stands where the address in its record
/// leads to.
pub proof fn law_root(image: Seq<u8>, map: NewMapView, place: int)
    requires
        leads_to_byte(map, map.leading_block.disc_record.root_dir.0, place),
    ensures
        root_of(image, map) is Ok <==> holds_directory(image, place),
        root_of(image, map) matches Ok((root, _)) ==> root == directory_at(image, place),
{
    let root_link = map.leading_block.disc_record.root_dir;
    let context = Some(
        FaultView::InvalidRoot { root_link, sector_size: map.sector_size() as usize },
    );
    law_directories_are_found(image, map, root_link.0, place, context);
}

} // verus!
