//! What is handed out when a file is asked for.

use vstd::arithmetic::power2::*;
use vstd::prelude::*;

use super::contents::{joined_parts, law_object_bytes, lies_in};
use super::files::{is_block_for, object_named, sectors_behind};
use super::ways::{
    has_name, is_first, is_folder, is_last_file, is_way, law_last_file, law_lookup, law_ways,
    leads_to_file, slot,
};
use crate::new_map::disc_structures::NewMapView;
use crate::new_map::filesystem::{entry_at, DirEntry};
use crate::new_map::lookup::{
    faithful_along, file_at, last_file, lemma_fetched_faithful, lemma_file_is_what_the_disc_holds,
    lemma_loaded_faithful, lookup, unambiguous, unambiguous_along,
};
use crate::new_map::sys_structures::{fetched, lemma_populated_keeps, loaded, FormatEView};
use crate::new_map::tree::FileObjectView;
use crate::new_map::util::FragmentId;

verus! {

/// The bytes of the object that an address names, as they lie on the disc.
pub open spec fn object_at(image: Seq<u8>, map: NewMapView, address: u32) -> Seq<u8> {
    joined_parts(image, map.file_parts(object_named(address) as FragmentId))
}

/// Whether the object that an address names lies in the image.
pub open spec fn object_is_there(image: Seq<u8>, map: NewMapView, address: u32) -> bool {
    let parts = map.file_parts(object_named(address) as FragmentId);
    forall|i: int| 0 <= i < parts.len() ==> lies_in(image, #[trigger] parts[i])
}

/// How many bytes behind the beginning of its object an address lies.
pub open spec fn bytes_behind(map: NewMapView, address: u32) -> int {
    sectors_behind(address) * pow2(map.leading_block.disc_record.log2_sec_size as nat)
}

/// The contents of a file are a part of its object: they begin where its address says, and
/// are as long as its entry says, or end where the object ends. There are none where the
/// object ends before the file begins.
pub proof fn law_contents(image: Seq<u8>, map: NewMapView, entry: DirEntry)
    requires
        object_is_there(image, map, entry.address.0),
    ensures
        ({
            let object = object_at(image, map, entry.address.0);
            let from = bytes_behind(map, entry.address.0);
            let contents = map.file_contents(image, entry);
            &&& from > object.len() ==> contents is None
            &&& from <= object.len() ==> contents is Some
            &&& from + entry.len <= object.len() ==> contents->0 == object.subrange(
                from,
                from + entry.len,
            ) && contents->0.len() == entry.len
            &&& from <= object.len() < from + entry.len ==> contents->0 == object.subrange(
                from,
                object.len() as int,
            )
        }),
{
    let parts = map.file_parts(object_named(entry.address.0) as FragmentId);
    let from = bytes_behind(map, entry.address.0);
    let (a, b) = (
        sectors_behind(entry.address.0),
        pow2(map.leading_block.disc_record.log2_sec_size as nat) as int,
    );
    assert(a * b >= 0) by (nonlinear_arith)
        requires
            a >= 0,
            b >= 0,
    ;
    assert(map.offset_in_fragment(entry.address) == from);
    assert(entry.address.fragment_number() == object_named(entry.address.0));
    law_object_bytes(image, parts, from, entry.len as int);
}

/// The part of a file that lies in the first fragment for its object begins where its address
/// says, and ends with the file, or with the fragment if that is shorter. There is none where
/// no fragment has the number.
pub proof fn law_file_region(map: NewMapView, entry: DirEntry)
    requires
        map.blocks.len() == 0,
    ensures
        ({
            let blocks = map.leading_block.allocations.fragments;
            let id = object_named(entry.address.0);
            &&& forall|k: usize| #[trigger]
                is_block_for(blocks, k, id) ==> (map.file_region(entry) matches Some((start, end))
                    && {
                    let region = blocks[k].disk_region;
                    &&& start == region.start + bytes_behind(map, entry.address.0)
                    &&& end <= region.end
                    &&& end <= start + entry.len
                    &&& end == region.end || end == start + entry.len
                })
            &&& map.file_region(entry) is None <==> forall|k: usize| #[trigger]
                blocks.contains_key(k) ==> blocks[k].id != id
        }),
{
    let blocks = map.leading_block.allocations.fragments;
    super::files::law_first_block(blocks, object_named(entry.address.0) as FragmentId);
}

/// A disc after some files have been asked for, one after the other.
pub open spec fn after_asking(disk: FormatEView, asked: Seq<Seq<Seq<u8>>>) -> FormatEView
    decreases asked.len(),
{
    if asked.len() == 0 {
        disk
    } else {
        fetched(after_asking(disk, asked.drop_last()), asked.last()).0
    }
}

/// Whether no file has the name of a directory on a way.
pub open spec fn is_clear(image: Seq<u8>, path: Seq<Seq<u8>>, places: Seq<int>) -> bool {
    forall|k: int, i: int|
        0 <= k < path.len() && #[trigger] has_name(image, places[k], i, path[k]) ==> is_folder(
            image,
            places[k],
            i,
        )
}

proof fn lemma_clear(
    image: Seq<u8>,
    map: NewMapView,
    path: Seq<Seq<u8>>,
    places: Seq<int>,
    name: Seq<u8>,
    first: int,
)
    requires
        is_way(image, map, path, places),
        is_clear(image, path, places),
        is_first(image, places.last(), first, name),
        !is_folder(image, places.last(), first),
    ensures
        unambiguous_along(image, map, path.push(name)),
{
    let whole = path.push(name);
    assert forall|k: int| 0 <= k < whole.len() implies (lookup(
        image,
        map,
        #[trigger] whole.take(k),
    ) matches Some(FileObjectView::Dir(directory)) ==> unambiguous(
        directory.entries,
        whole[k],
    )) by {
        assert(whole.take(k) =~= path.take(k));
        super::ways::lemma_shorter_way(image, map, path, places, k);
        law_ways(image, map, path.take(k), places.take(k + 1));
        assert(places.take(k + 1).last() == places[k]);
        super::ways::lemma_first_slot(image, places[k], whole[k]);
        super::ways::lemma_slots(image, places[k]);
        let entries = crate::new_map::filesystem::directory_at(image, places[k]).entries;
        if k < path.len() {
            if last_file(entries, path[k]) is Some {
                let file = last_file(entries, path[k])->0;
                crate::new_map::lookup::lemma_last_file(entries, path[k]);
                let m = choose|m: int| 0 <= m < entries.len() && entries[m] == file;
                assert(has_name(image, places[k], m, path[k]));
            }
        } else {
            assert(super::ways::in_use(image, places[k], first));
        }
    }
}

proof fn lemma_after_asking(disk: FormatEView, asked: Seq<Seq<Seq<u8>>>, path: Seq<Seq<u8>>)
    requires
        faithful_along(disk, path),
        unambiguous_along(disk.image, disk.map, path),
        disk.tree.contains_key(Seq::<Seq<u8>>::empty()),
    ensures
        ({
            let after = after_asking(disk, asked);
            &&& after.image == disk.image
            &&& after.map == disk.map
            &&& faithful_along(after, path)
            &&& unambiguous_along(after.image, after.map, path)
            &&& after.tree.contains_key(Seq::<Seq<u8>>::empty())
        }),
    decreases asked.len(),
{
    if asked.len() > 0 {
        lemma_after_asking(disk, asked.drop_last(), path);
        let before = after_asking(disk, asked.drop_last());
        lemma_fetched_faithful(before, asked.last(), path);
        assert(asked.last().take(0) =~= Seq::<Seq<u8>>::empty());
        lemma_populated_keeps(before, asked.last(), 1);
    }
}

/// A file that a way leads to is handed out when it is asked for, whatever was asked for
/// before: its entry is what its slot spells, and its contents begin in its object where the
/// address of the entry says, and have the length that the entry gives.
pub proof fn law_files_are_handed_out(
    image: Seq<u8>,
    asked: Seq<Seq<Seq<u8>>>,
    path: Seq<Seq<u8>>,
    places: Seq<int>,
    name: Seq<u8>,
    first: int,
    last: int,
)
    requires
        loaded(image) is Ok,
        is_way(image, loaded(image)->Ok_0.map, path, places),
        is_clear(image, path, places),
        is_first(image, places.last(), first, name),
        !is_folder(image, places.last(), first),
        is_last_file(image, places.last(), last, name),
    ensures
        ({
            let map = loaded(image)->Ok_0.map;
            let entry = entry_at(image, slot(places.last(), last));
            let object = object_at(image, map, entry.address.0);
            let from = bytes_behind(map, entry.address.0);
            let disk = after_asking(loaded(image)->Ok_0, asked);
            object_is_there(image, map, entry.address.0) && map.fragment(
                object_named(entry.address.0) as FragmentId,
            ) is Some && from + entry.len <= object.len() ==> {
                &&& fetched(disk, path.push(name)).1 matches Ok(Ok((found, contents)))
                &&& found == entry
                &&& contents == object.subrange(from, from + entry.len)
                &&& contents.len() == entry.len
            }
        }),
{
    let disk = loaded(image)->Ok_0;
    let map = disk.map;
    let whole = path.push(name);
    let entry = entry_at(image, slot(places.last(), last));
    law_last_file(image, map, path, places, name, first, last);
    lemma_clear(image, map, path, places, name, first);
    lemma_loaded_faithful(image, whole);
    lemma_after_asking(disk, asked, whole);
    lemma_file_is_what_the_disc_holds(after_asking(disk, asked), whole);
    if object_is_there(image, map, entry.address.0) {
        law_contents(image, map, entry);
    }
}

/// Where a path leads to no file, none is handed out.
pub proof fn law_nothing_else_is_handed_out(
    image: Seq<u8>,
    path: Seq<Seq<u8>>,
)
    requires
        loaded(image) is Ok,
        unambiguous_along(image, loaded(image)->Ok_0.map, path),
        !leads_to_file(image, loaded(image)->Ok_0.map, path),
    ensures
        !(fetched(loaded(image)->Ok_0, path).1 matches Ok(Ok(_))),
{
    let disk = loaded(image)->Ok_0;
    lemma_loaded_faithful(image, path);
    law_lookup(image, disk.map, path);
    lemma_file_is_what_the_disc_holds(disk, path);
    assert(file_at(image, disk.map, path) is None);
}

} // verus!
