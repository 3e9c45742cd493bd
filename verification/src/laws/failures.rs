//! What is reported of a disc that cannot be read.

use vstd::arithmetic::power2::*;
use vstd::prelude::*;

use super::blocks::{
    are_fragments, begins_at, holds_blocks, is_free_list, is_fragment, is_one, law_every_block,
    law_free_list, lemma_bits_of, lemma_lengths, lemma_read, says_next, take_bits,
};
use super::directories::{holds_directory, holds_magic, law_directory_is_read, lemma_magic};
use super::files::{law_root, leads_to_byte, lemma_place};
use super::geometry::{goes_into, law_mapped_units};
use super::maps::{is_laid_out, lemma_quotient};
use super::numbers::spells;
use super::records::law_header;
use super::ways::lemma_byte_is_there;
use crate::new_map::allocation::{blocks_at, by_position, walked};
use crate::new_map::disc_structures::format_e_map;
use crate::new_map::filesystem::{directory_at, directory_failure, directory_faults, zeros_failure};
use crate::new_map::record::{
    lemma_for_zone, record_at, record_failure, AllocationParsingParams,
};
use crate::new_map::sys_structures::{directory_place, loaded};
use crate::new_map::tree::FileObjectView;
use crate::new_map::util::{bits_fit, BitPosition};
use crate::new_map::{CauseView, Defect, FaultView};

verus! {

/// What is wrong with a directory: the first of the two words that is not there, with the
/// bytes in its place, or a byte that should be a zero, or that the image ends before it.
pub proof fn law_bad_directory(s: Seq<u8>, p: int)
    requires
        0 <= p,
        !holds_directory(s, p),
    ensures
        ({
            let cause = directory_failure(s, p);
            &&& p + 5 > s.len() ==> cause == Some(CauseView::Truncated)
            &&& p + 5 <= s.len() && !holds_magic(s, p + 1) ==> cause == Some(
                CauseView::Fault(FaultView::MagicStringFailure(s.subrange(p + 1, p + 5))),
            )
            &&& p + 5 <= s.len() < p + 2007 && holds_magic(s, p + 1) ==> cause == Some(
                CauseView::Truncated,
            )
            &&& p + 2048 <= s.len() && holds_magic(s, p + 1) ==> cause == Some(
                if s[p + 2007] != 0 || s[p + 2008] != 0 || s[p + 2009] != 0 {
                    CauseView::Mismatch
                } else {
                    CauseView::Fault(
                        FaultView::MagicStringFailure(s.subrange(p + 2043, p + 2047)),
                    )
                },
            )
        }),
{
    if p + 5 <= s.len() {
        lemma_magic(s, p + 1);
    }
    if p + 2048 <= s.len() {
        lemma_magic(s, p + 2043);
    }
    reveal_with_fuel(zeros_failure, 4);
}

/// Whether reading a disc fails for a cause, with what was being read.
pub open spec fn cannot_load(image: Seq<u8>, cause: CauseView, context: Option<FaultView>) -> bool {
    loaded(image) matches Err(e) && e.cause == cause && e.context == context
}

/// A disc is read if its map can be read and its root directory stands where the record of
/// the disc says. At first it holds that directory alone, with what there is to report of it.
pub proof fn law_loaded(image: Seq<u8>, place: int)
    requires
        format_e_map(image, 0) is Ok,
        leads_to_byte(
            format_e_map(image, 0)->Ok_0.0,
            format_e_map(image, 0)->Ok_0.0.leading_block.disc_record.root_dir.0,
            place,
        ),
    ensures
        ({
            let map = format_e_map(image, 0)->Ok_0.0;
            let record = map.leading_block.disc_record;
            &&& loaded(image) is Ok <==> holds_directory(image, place)
            &&& loaded(image) matches Ok(disk) ==> {
                &&& disk.image == image
                &&& disk.map == map
                &&& disk.faults == directory_faults(image, place)
                &&& forall|path: Seq<Seq<u8>>| #[trigger]
                    disk.tree.contains_key(path) <==> path.len() == 0
                &&& disk.tree[Seq::empty()] == FileObjectView::Dir(directory_at(image, place))
            }
            &&& place > image.len() ==> cannot_load(
                image,
                CauseView::Defect(Defect::OutsideImage),
                None,
            )
            &&& place <= image.len() && !holds_directory(image, place) ==> cannot_load(
                image,
                directory_failure(image, place)->0,
                Some(
                    FaultView::InvalidRoot {
                        root_link: record.root_dir,
                        sector_size: pow2(record.log2_sec_size as nat) as usize,
                    },
                ),
            )
        }),
{
    let map = format_e_map(image, 0)->Ok_0.0;
    let root = map.leading_block.disc_record.root_dir.0;
    lemma_place(map, root, place);
    lemma_byte_is_there(map, root, place);
    law_root(image, map, place);
    law_directory_is_read(image, place);
    if let Ok(disk) = loaded(image) {
        assert forall|path: Seq<Seq<u8>>| #[trigger] disk.tree.contains_key(path) <==> path.len()
            == 0 by {
            if path.len() == 0 {
                assert(path =~= Seq::empty());
            }
        }
    }
}

/// A disc cannot be read where the record leads to no root directory, or its map cannot be
/// read.
pub proof fn law_not_loaded(image: Seq<u8>)
    ensures
        format_e_map(image, 0) matches Err(cause) ==> cannot_load(image, cause, None),
        format_e_map(image, 0) matches Ok((map, _)) ==> (forall|place: int|
            !#[trigger] leads_to_byte(map, map.leading_block.disc_record.root_dir.0, place))
            ==> cannot_load(image, CauseView::Defect(Defect::LostDirectory), None),
{
    if let Ok((map, _)) = format_e_map(image, 0) {
        let root = map.leading_block.disc_record.root_dir;
        if let Some(place) = directory_place(map, root, map.sector_size()) {
            lemma_place(map, root.0, place);
        }
    }
}

/// Whether the map of a disc is refused for a cause.
pub open spec fn refuses_map(image: Seq<u8>, cause: CauseView) -> bool {
    format_e_map(image, 0) matches Err(e) && e == cause
}

/// What is wrong with a map that is not even begun: there are not enough bytes for its
/// record, sectors have a size that no disc has, or its zones cannot exist.
pub proof fn law_bad_record(image: Seq<u8>)
    ensures
        image.len() < 4 ==> refuses_map(image, CauseView::Truncated),
        4 < image.len() && image[4] != 8 && image[4] != 9 && image[4] != 10 ==> refuses_map(
            image,
            CauseView::Fault(FaultView::UnacceptableSectorSize(image[4])),
        ),
        4 <= image.len() < 64 && (4 < image.len() ==> 8 <= image[4] <= 10) ==> refuses_map(
            image,
            CauseView::Truncated,
        ),
        64 <= image.len() && 8 <= image[4] <= 10 && !record_at(image, 4).can_be_mapped(true)
            ==> refuses_map(image, CauseView::Defect(Defect::Geometry)),
{
}

/// The fragments of a map, before the free ones are looked for.
proof fn lemma_laid_out(image: Seq<u8>, link: u16, list: Seq<(int, int)>)
    requires
        64 <= image.len(),
        bits_fit(image.len()),
        record_failure(image, 4) is None,
        record_at(image, 4).can_be_mapped(true),
        is_laid_out(image, 64, record_at(image, 4), true, list),
    ensures
        ({
            let record = record_at(image, 4);
            let params = AllocationParsingParams::for_zone(true, link, record);
            let unit = pow2(record.log2_bytes_per_mapbit as nat) as int;
            blocks_at(image, 512, params.mapped_space_in_alloc_units as nat, params) matches Ok(
                (blocks, _),
            ) && are_fragments(by_position(blocks), 64, list, unit, Seq::empty())
        }),
        forall|k: int| 0 <= k < list.len() ==> (#[trigger] list[k]).1 > 0,
{
    let record = record_at(image, 4);
    let params = AllocationParsingParams::for_zone(true, link, record);
    let unit = pow2(record.log2_bytes_per_mapbit as nat) as int;
    let sector = pow2(record.log2_sec_size as nat) as int;
    lemma_pow2_pos(record.log2_bytes_per_mapbit as nat);
    let (zone, mapped) = choose|zone: int, mapped: nat|
        {
            &&& #[trigger] goes_into(record.num_zones as int, record.size as int, zone)
            &&& goes_into(unit, zone - record.num_zones * sector, mapped as int)
            &&& #[trigger] take_bits(list, mapped)
        };
    law_mapped_units(true, link, record);
    lemma_for_zone(true, link, record);
    lemma_quotient(record.num_zones as int, record.size as int, zone, params.zone_size as int);
    lemma_quotient(
        unit,
        zone - record.num_zones * sector,
        mapped as int,
        params.mapped_space_in_alloc_units as int,
    );
    lemma_read(image, 64, list, mapped, params);
}

/// A map whose link leads to no fragment is refused, with the link.
pub proof fn law_bad_free_link(image: Seq<u8>, link: u16, list: Seq<(int, int)>)
    requires
        64 <= image.len(),
        bits_fit(image.len()),
        0 < link < 32768,
        spells(image, 1, 2, link as int) || spells(image, 1, 2, 32768 + link),
        record_failure(image, 4) is None,
        record_at(image, 4).can_be_mapped(true),
        is_laid_out(image, 64, record_at(image, 4), true, list),
        forall|i: int| 0 <= i < list.len() ==> #[trigger] begins_at(64, list, i) != 8 + link,
    ensures
        refuses_map(image, CauseView::Fault(FaultView::InvalidFreeLink(link))),
{
    law_header(image, 0, link as int);
    lemma_laid_out(image, link, list);
    let params = AllocationParsingParams::for_zone(true, link, record_at(image, 4));
    let read = by_position(
        blocks_at(image, 512, params.mapped_space_in_alloc_units as nat, params)->Ok_0.0,
    );
    let head = (8 + link) as usize;
    if read.contains_key(head) {
        let i = choose|i: int| 0 <= i < list.len() && head == #[trigger] begins_at(64, list, i);
        assert(begins_at(64, list, i) != 8 + link);
    }
    law_free_list(read, 0, link, Seq::empty());
    assert(walked(read, 0, link).1 == Some(FaultView::InvalidFreeLink(link)));
}

/// Whether `free` are the blocks that a link leads to, up to one that says where the next
/// begins, and none begins there.
pub open spec fn breaks_off(list: Seq<(int, int)>, link: u16, free: Seq<int>) -> bool {
    &&& free.len() > 0
    &&& forall|i: int| 0 <= i < free.len() ==> 0 <= #[trigger] free[i] < list.len()
    &&& begins_at(64, list, free[0]) == 8 + link
    &&& forall|i: int|
        0 <= i < free.len() - 1 ==> #[trigger] says_next(64, list, free[i], free[i + 1])
    &&& list[free.last()].0 > 0
    &&& forall|i: int|
        0 <= i < list.len() ==> #[trigger] begins_at(64, list, i) != begins_at(
            64,
            list,
            free.last(),
        ) + list[free.last()].0
}

/// A map whose list of free fragments breaks off is refused, with the place where it breaks
/// off and the place that the list leads to.
pub proof fn law_broken_free_list(
    image: Seq<u8>,
    link: u16,
    list: Seq<(int, int)>,
    free: Seq<int>,
)
    requires
        64 <= image.len(),
        bits_fit(image.len()),
        0 < link < 32768,
        spells(image, 1, 2, link as int) || spells(image, 1, 2, 32768 + link),
        record_failure(image, 4) is None,
        record_at(image, 4).can_be_mapped(true),
        is_laid_out(image, 64, record_at(image, 4), true, list),
        breaks_off(list, link, free),
        begins_at(64, list, free.last()) + list[free.last()].0 <= usize::MAX,
    ensures
        ({
            let from = begins_at(64, list, free.last());
            refuses_map(
                image,
                CauseView::Fault(
                    FaultView::BrokenFreeChain {
                        origin: BitPosition(from as usize),
                        dest_bit_offset: BitPosition((from + list[free.last()].0) as usize),
                    },
                ),
            )
        }),
{
    law_header(image, 0, link as int);
    lemma_laid_out(image, link, list);
    let record = record_at(image, 4);
    let unit = pow2(record.log2_bytes_per_mapbit as nat) as int;
    let params = AllocationParsingParams::for_zone(true, link, record);
    let read = by_position(
        blocks_at(image, 512, params.mapped_space_in_alloc_units as nat, params)->Ok_0.0,
    );
    let places = free.map_values(|i: int| begins_at(64, list, i) as usize);
    assert forall|i: int| 0 <= i < free.len() implies {
        &&& #[trigger] places[i] == begins_at(64, list, free[i])
        &&& read.contains_key(places[i])
        &&& read[places[i]].id == list[free[i]].0
    } by {
        let f = free[i];
        assert(0 <= f < list.len());
        let at = begins_at(64, list, f);
        assert(is_fragment(read, 64, list, unit, f, Seq::<int>::empty().contains(f)));
    }
    assert(places[0] == begins_at(64, list, free[0]));
    assert forall|i: int|
        #![trigger places[i]]
        0 <= i < places.len() - 1 implies {
        &&& read[places[i]].id > 0
        &&& places[i + 1] == places[i] + read[places[i]].id
    } by {
        assert(says_next(64, list, free[i], free[i + 1]));
        assert(places[i + 1] == begins_at(64, list, free[i + 1]));
    }
    assert(is_free_list(read, 0, link, places));
    assert(places.last() == places[places.len() - 1]);
    assert(free.last() == free[free.len() - 1]);
    let dest = (begins_at(64, list, free.last()) + list[free.last()].0) as usize;
    if read.contains_key(dest) {
        let i = choose|i: int| 0 <= i < list.len() && dest == #[trigger] begins_at(64, list, i);
        assert(begins_at(64, list, i) != begins_at(64, list, free.last()) + list[free.last()].0);
    }
    law_free_list(read, 0, link, places);
}

/// A map that no further one follows, though there are more units to be mapped than its
/// blocks take, is refused as incomplete.
pub proof fn law_cut_off(
    s: Seq<u8>,
    p: int,
    list: Seq<(int, int)>,
    mapped: nat,
    params: AllocationParsingParams,
)
    requires
        512 <= p,
        params.fragment_id_length <= 16,
        bits_fit(s.len()),
        holds_blocks(s, p, params.fragment_id_length as nat, list),
        super::blocks::bits_of(list, list.len() as int) < mapped,
        (p - 512 + super::blocks::bits_of(list, list.len() as int)) * pow2(
            params.log_bytes_per_alloc as nat,
        ) <= usize::MAX,
        forall|j: int|
            p + super::blocks::bits_of(list, list.len() as int) + params.fragment_id_length <= j < 8
                * s.len() ==> !#[trigger] is_one(s, j),
    ensures
        blocks_at(s, p, mapped, params) matches Err(cause) && cause == CauseView::Incomplete,
    decreases list.len(),
{
    let idlen = params.fragment_id_length as nat;
    if list.len() == 0 {
        law_every_block(s, p, idlen);
    } else {
        let (id, length) = list[0];
        let rest = list.drop_first();
        let n = rest.len() as int;
        let unit = pow2(params.log_bytes_per_alloc as nat) as int;
        super::blocks::lemma_bits_of_rest(list, n);
        super::blocks::lemma_bits_of_rest(list, 0);
        lemma_lengths(s, p, idlen, list);
        lemma_bits_of(list, 1, n + 1);
        super::blocks::law_raw_block(s, p, idlen, id, length);
        let total = super::blocks::bits_of(list, n + 1);
        assert(super::blocks::bits_of(rest, 0) == 0);
        assert(length <= total);
        assert((p - 512 + length) * unit <= (p - 512 + total) * unit) by (nonlinear_arith)
            requires
                length <= total,
                unit >= 0,
        ;
        assert(0 <= (p - 512) * unit) by (nonlinear_arith)
            requires
                unit >= 0,
                p >= 512,
        ;
        law_cut_off(s, p + length, rest, (mapped - length) as nat, params);
    }
}

} // verus!
