//! The ways through the directories of a disc, and what lies at their ends.

use vstd::prelude::*;

use super::directories::{holds_directory, law_directory, law_entries_counted, law_every_entry};
use super::files::{law_directories_are_found, law_directories_elsewhere, law_root, leads_to_byte};
use super::numbers::{ends_name, holds_name, law_one_name, law_three_bytes, spells};
use crate::new_map::disc_structures::NewMapView;
use crate::new_map::filesystem::{directory_at, entry_at, DirEntry};
use crate::new_map::listing::{leads_back, listed, lists_disc, place_at};
use crate::new_map::lookup::{entry_named, last_file, lookup, object_of};
use crate::new_map::sys_structures::{directory_place, first_named};
use crate::new_map::tree::FileObjectView;
use crate::new_map::util::DiscPosition;
use crate::new_map::FaultView;

verus! {

/// Where slot `i` of the directory at `place` begins.
pub open spec fn slot(place: int, i: int) -> int {
    place + 5 + 26 * i
}

/// Whether slot `i` of the directory at `place` is in use: neither it nor one before it
/// begins with a terminator.
pub open spec fn in_use(image: Seq<u8>, place: int, i: int) -> bool {
    &&& 0 <= i < 77
    &&& forall|j: int| 0 <= j <= i ==> !#[trigger] ends_name(image[place + 5 + 26 * j])
}

/// Whether slot `i` of the directory at `place` is an entry with the given name.
pub open spec fn has_name(image: Seq<u8>, place: int, i: int, name: Seq<u8>) -> bool {
    in_use(image, place, i) && holds_name(image, slot(place, i), 10, name)
}

/// Whether slot `i` of the directory at `place` is that of a directory: its attributes have
/// the bit that is worth 8.
pub open spec fn is_folder(image: Seq<u8>, place: int, i: int) -> bool {
    (image[slot(place, i) + 25] as int / 8) % 2 == 1
}

/// Whether slot `i` is the first one of the directory at `place` with the given name.
pub open spec fn is_first(image: Seq<u8>, place: int, i: int, name: Seq<u8>) -> bool {
    &&& has_name(image, place, i, name)
    &&& forall|j: int| 0 <= j < i ==> !#[trigger] has_name(image, place, j, name)
}

/// Whether slot `i` is the last file of the directory at `place` with the given name.
pub open spec fn is_last_file(image: Seq<u8>, place: int, i: int, name: Seq<u8>) -> bool {
    &&& has_name(image, place, i, name)
    &&& !is_folder(image, place, i)
    &&& forall|j: int|
        i < j < 77 && #[trigger] has_name(image, place, j, name) ==> is_folder(image, place, j)
}

/// Whether a name leads from the directory at `from` to the one at `to`: the first slot with
/// that name is that of a directory, and its address leads there.
pub open spec fn is_step(
    image: Seq<u8>,
    map: NewMapView,
    from: int,
    name: Seq<u8>,
    to: int,
) -> bool {
    &&& holds_directory(image, to)
    &&& exists|i: int, address: u32|
        {
            &&& #[trigger] is_first(image, from, i, name)
            &&& is_folder(image, from, i)
            &&& spells(image, slot(from, i) + 22, 3, address as int)
            &&& #[trigger] leads_to_byte(map, address, to)
        }
}

/// Whether `places` are where the directories on the way along `path` stand, from the root
/// to the one that the path leads to.
pub open spec fn is_way(
    image: Seq<u8>,
    map: NewMapView,
    path: Seq<Seq<u8>>,
    places: Seq<int>,
) -> bool {
    &&& places.len() == path.len() + 1
    &&& holds_directory(image, places[0])
    &&& leads_to_byte(map, map.leading_block.disc_record.root_dir.0, places[0])
    &&& forall|k: int|
        #![trigger path[k]]
        #![trigger places[k]]
        0 <= k < path.len() ==> is_step(image, map, places[k], path[k], places[k + 1])
}

/// Whether a path leads to a directory.
pub open spec fn leads_to_directory(image: Seq<u8>, map: NewMapView, path: Seq<Seq<u8>>) -> bool {
    exists|places: Seq<int>| is_way(image, map, path, places)
}

/// Whether a path leads to a file: the names before its last one lead to a directory, and
/// the first slot of that with the last name is not that of a directory.
pub open spec fn leads_to_file(image: Seq<u8>, map: NewMapView, path: Seq<Seq<u8>>) -> bool {
    path.len() > 0 && exists|places: Seq<int>, i: int| #[trigger]
        is_way(image, map, path.drop_last(), places) && #[trigger] is_first(
            image,
            places.last(),
            i,
            path.last(),
        ) && !is_folder(image, places.last(), i)
}

/// The entries of a directory are its slots that are in use.
pub proof fn lemma_slots(image: Seq<u8>, place: int)
    requires
        0 <= place,
        holds_directory(image, place),
    ensures
        ({
            let entries = directory_at(image, place).entries;
            &&& entries.len() <= 77
            &&& forall|i: int| #[trigger] in_use(image, place, i) <==> 0 <= i < entries.len()
            &&& forall|i: int|
                #![trigger entries[i]]
                0 <= i < entries.len() ==> {
                    &&& entries[i] == entry_at(image, slot(place, i))
                    &&& entries[i].attrs.has_dir() == is_folder(image, place, i)
                    &&& forall|name: Seq<u8>| #[trigger]
                        has_name(image, place, i, name) <==> entries[i].obj_name@ == name
                    &&& spells(
                        image,
                        slot(place, i) + 22,
                        3,
                        entries[i].address.0 as int,
                    )
                }
        }),
{
    let entries = directory_at(image, place).entries;
    law_entries_counted(image, place);
    law_directory(image, place, entries.len() as int);
    assert forall|i: int| #[trigger] in_use(image, place, i) <==> 0 <= i < entries.len() by {
        let n = entries.len() as int;
        if in_use(image, place, i) && i >= n {
            assert(!ends_name(image[place + 5 + 26 * n]));
        }
        if 0 <= i < n {
            assert forall|j: int| 0 <= j <= i implies !#[trigger] ends_name(
                image[place + 5 + 26 * j],
            ) by {}
        }
    }
    assert forall|i: int|
        #![trigger entries[i]]
        0 <= i < entries.len() implies {
        &&& entries[i] == entry_at(image, slot(place, i))
        &&& entries[i].attrs.has_dir() == is_folder(image, place, i)
        &&& forall|name: Seq<u8>| #[trigger]
            has_name(image, place, i, name) <==> entries[i].obj_name@ == name
        &&& spells(image, slot(place, i) + 22, 3, entries[i].address.0 as int)
    } by {
        let p = slot(place, i);
        assert(entries[i] == entry_at(image, place + 5 + 26 * i));
        law_every_entry(image, p);
        assert(in_use(image, place, i));
        assert forall|name: Seq<u8>| #[trigger]
            has_name(image, place, i, name) <==> entries[i].obj_name@ == name by {
            if has_name(image, place, i, name) {
                law_one_name(image, p, 10, name, entries[i].obj_name@);
            }
        }
    }
}

/// The first entry with a name is the first slot with that name.
pub proof fn lemma_first_slot(image: Seq<u8>, place: int, name: Seq<u8>)
    requires
        0 <= place,
        holds_directory(image, place),
    ensures
        ({
            let entries = directory_at(image, place).entries;
            &&& forall|i: int| #[trigger]
                is_first(image, place, i, name) ==> 0 <= i < entries.len() && first_named(
                    entries,
                    name,
                ) == Some(entries[i])
            &&& first_named(entries, name) matches Some(entry) ==> exists|i: int|
                #[trigger] is_first(image, place, i, name) && entries[i] == entry
        }),
{
    let entries = directory_at(image, place).entries;
    lemma_slots(image, place);
    assert forall|i: int| #[trigger] is_first(image, place, i, name) implies 0 <= i < entries.len()
        && first_named(entries, name) == Some(entries[i]) by {
        assert(in_use(image, place, i));
        assert(entries[i].obj_name@ == name);
        assert forall|j: int| 0 <= j < i implies (#[trigger] entries[j]).obj_name@ != name by {
            assert(!has_name(image, place, j, name));
        }
        lemma_first_is(entries, name, i);
    }
    if let Some(entry) = first_named(entries, name) {
        let i = lemma_first_index(entries, name);
        assert(has_name(image, place, i, name));
        assert forall|j: int| 0 <= j < i implies !#[trigger] has_name(image, place, j, name) by {
            assert(entries[j].obj_name@ != name);
        }
        assert(is_first(image, place, i, name) && entries[i] == entry);
    }
}

proof fn lemma_first_is(entries: Seq<DirEntry>, name: Seq<u8>, i: int)
    requires
        0 <= i < entries.len(),
        entries[i].obj_name@ == name,
        forall|j: int| 0 <= j < i ==> (#[trigger] entries[j]).obj_name@ != name,
    ensures
        first_named(entries, name) == Some(entries[i]),
    decreases i,
{
    if i > 0 {
        let rest = entries.drop_first();
        assert(entries[0].obj_name@ != name);
        assert forall|j: int| 0 <= j < i - 1 implies (#[trigger] rest[j]).obj_name@ != name by {
            assert(rest[j] == entries[j + 1]);
        }
        lemma_first_is(rest, name, i - 1);
    }
}

proof fn lemma_first_index(entries: Seq<DirEntry>, name: Seq<u8>) -> (i: int)
    requires
        first_named(entries, name) is Some,
    ensures
        0 <= i < entries.len(),
        entries[i].obj_name@ == name,
        first_named(entries, name) == Some(entries[i]),
        forall|j: int| 0 <= j < i ==> (#[trigger] entries[j]).obj_name@ != name,
    decreases entries.len(),
{
    if entries[0].obj_name@ == name {
        0
    } else {
        let rest = entries.drop_first();
        let i = lemma_first_index(rest, name);
        assert forall|j: int| 0 <= j < i + 1 implies (#[trigger] entries[j]).obj_name@ != name by {
            if j > 0 {
                assert(rest[j - 1] == entries[j]);
            }
        }
        i + 1
    }
}

pub proof fn lemma_last_is(entries: Seq<DirEntry>, name: Seq<u8>, i: int)
    requires
        0 <= i < entries.len(),
        entries[i].obj_name@ == name,
        !entries[i].attrs.has_dir(),
        forall|j: int|
            i < j < entries.len() ==> (#[trigger] entries[j]).obj_name@ != name
                || entries[j].attrs.has_dir(),
    ensures
        last_file(entries, name) == Some(entries[i]),
    decreases entries.len(),
{
    if i < entries.len() - 1 {
        let rest = entries.drop_last();
        let last = entries[entries.len() - 1];
        assert(entries.last() == last);
        assert forall|j: int| i < j < rest.len() implies (#[trigger] rest[j]).obj_name@ != name
            || rest[j].attrs.has_dir() by {
            assert(rest[j] == entries[j]);
        }
        lemma_last_is(rest, name, i);
    }
}

/// A byte that an address leads to is not in front of the image.
pub proof fn lemma_byte_is_there(map: NewMapView, address: u32, place: int)
    requires
        leads_to_byte(map, address, place),
    ensures
        place >= 0,
{
    let blocks = map.leading_block.allocations.fragments;
    let sector = vstd::arithmetic::power2::pow2(
        map.leading_block.disc_record.log2_sec_size as nat,
    ) as int;
    let behind = super::files::sectors_behind(address);
    assert(behind * sector >= 0) by (nonlinear_arith)
        requires
            behind >= 0,
            sector >= 0,
    ;
}

/// What a name stands for in a directory that a path leads to.
proof fn lemma_child(
    image: Seq<u8>,
    map: NewMapView,
    path: Seq<Seq<u8>>,
    from: int,
    name: Seq<u8>,
)
    requires
        lookup(image, map, path) == Some(FileObjectView::Dir(directory_at(image, from))),
    ensures
        ({
            let child = path.push(name);
            let entries = directory_at(image, from).entries;
            &&& lookup(image, map, child) == match entry_named(entries, name) {
                None => None,
                Some(entry) => object_of(image, map, child, entry),
            }
            &&& place_at(image, map, child) == match entry_named(entries, name) {
                Some(entry) => if entry.attrs.has_dir() {
                    directory_place(map, entry.address, map.sector_size())
                } else {
                    None
                },
                None => None,
            }
        }),
{
    let child = path.push(name);
    assert(child.drop_last() =~= path);
    assert(child.last() == name);
}

/// A step leads to the directory at its end.
proof fn lemma_step_down(
    image: Seq<u8>,
    map: NewMapView,
    path: Seq<Seq<u8>>,
    from: int,
    name: Seq<u8>,
    to: int,
)
    requires
        0 <= from,
        holds_directory(image, from),
        lookup(image, map, path) == Some(FileObjectView::Dir(directory_at(image, from))),
        is_step(image, map, from, name, to),
    ensures
        0 <= to,
        lookup(image, map, path.push(name)) == Some(FileObjectView::Dir(directory_at(image, to))),
        place_at(image, map, path.push(name)) == Some(to),
{
    let child = path.push(name);
    let entries = directory_at(image, from).entries;
    lemma_child(image, map, path, from, name);
    let (i, address) = choose|i: int, address: u32|
        {
            &&& #[trigger] is_first(image, from, i, name)
            &&& is_folder(image, from, i)
            &&& spells(image, slot(from, i) + 22, 3, address as int)
            &&& #[trigger] leads_to_byte(map, address, to)
        };
    lemma_first_slot(image, from, name);
    lemma_slot(image, from, i);
    let entry = entries[i];
    assert(first_named(entries, name) == Some(entry));
    law_three_bytes(image, slot(from, i) + 22, address as int);
    law_three_bytes(image, slot(from, i) + 22, entry.address.0 as int);
    assert(entry.address == DiscPosition(address));
    lemma_byte_is_there(map, address, to);
    law_directories_are_found(
        image,
        map,
        address,
        to,
        Some(FaultView::InvalidDir { path: child }),
    );
    super::files::lemma_place(map, address, to);
}

/// Where a name leads to a directory there is a step to it.
proof fn lemma_step_found(
    image: Seq<u8>,
    map: NewMapView,
    path: Seq<Seq<u8>>,
    from: int,
    name: Seq<u8>,
) -> (to: int)
    requires
        0 <= from,
        holds_directory(image, from),
        lookup(image, map, path) == Some(FileObjectView::Dir(directory_at(image, from))),
        lookup(image, map, path.push(name)) matches Some(FileObjectView::Dir(_)),
    ensures
        is_step(image, map, from, name, to),
{
    let child = path.push(name);
    let entries = directory_at(image, from).entries;
    lemma_child(image, map, path, from, name);
    lemma_first_slot(image, from, name);
    let entry = first_named(entries, name)->0;
    crate::new_map::lookup::lemma_last_file(entries, name);
    assert(entry.attrs.has_dir());
    let i = choose|i: int| #[trigger] is_first(image, from, i, name) && entries[i] == entry;
    lemma_slot(image, from, i);
    let address = entry.address.0;
    let context = Some(FaultView::InvalidDir { path: child });
    if forall|to: int| !leads_to_byte(map, address, to) {
        law_directories_elsewhere(image, map, address, context);
        0
    } else {
        let to = choose|to: int| leads_to_byte(map, address, to);
        law_directories_are_found(image, map, address, to, context);
        assert(is_first(image, from, i, name) && leads_to_byte(map, address, to));
        to
    }
}

/// A name leads to a file exactly where the first slot with that name is not that of a
/// directory.
proof fn lemma_step_to_file(
    image: Seq<u8>,
    map: NewMapView,
    path: Seq<Seq<u8>>,
    from: int,
    name: Seq<u8>,
)
    requires
        0 <= from,
        holds_directory(image, from),
        lookup(image, map, path) == Some(FileObjectView::Dir(directory_at(image, from))),
    ensures
        lookup(image, map, path.push(name)) matches Some(FileObjectView::File(_)) <==> exists|
            i: int,
        | #[trigger]
            is_first(image, from, i, name) && !is_folder(image, from, i),
{
    let entries = directory_at(image, from).entries;
    lemma_child(image, map, path, from, name);
    lemma_first_slot(image, from, name);
    crate::new_map::lookup::lemma_last_file(entries, name);
    if lookup(image, map, path.push(name)) matches Some(FileObjectView::File(_)) {
        let entry = first_named(entries, name)->0;
        let i = choose|i: int| #[trigger] is_first(image, from, i, name) && entries[i] == entry;
        lemma_slot(image, from, i);
    }
    if exists|i: int| #[trigger] is_first(image, from, i, name) && !is_folder(image, from, i) {
        let i = choose|i: int| #[trigger]
            is_first(image, from, i, name) && !is_folder(image, from, i);
        lemma_slot(image, from, i);
        assert(entries[i].obj_name@ == name) by {
            lemma_first_named_has_name(entries, name);
        }
    }
}

proof fn lemma_first_named_has_name(entries: Seq<DirEntry>, name: Seq<u8>)
    ensures
        first_named(entries, name) matches Some(entry) ==> entry.obj_name@ == name,
{
    crate::new_map::lookup::lemma_first_named(entries, name);
}

/// Of several files with one name the last one counts.
pub proof fn law_last_file(
    image: Seq<u8>,
    map: NewMapView,
    path: Seq<Seq<u8>>,
    places: Seq<int>,
    name: Seq<u8>,
    first: int,
    last: int,
)
    requires
        is_way(image, map, path, places),
        is_first(image, places.last(), first, name),
        !is_folder(image, places.last(), first),
        is_last_file(image, places.last(), last, name),
    ensures
        lookup(image, map, path.push(name)) == Some(
            FileObjectView::File(entry_at(image, slot(places.last(), last))),
        ),
{
    let from = places.last();
    law_ways(image, map, path, places);
    let entries = directory_at(image, from).entries;
    lemma_child(image, map, path, from, name);
    lemma_first_slot(image, from, name);
    lemma_slot(image, from, first);
    lemma_slot(image, from, last);
    lemma_slots(image, from);
    assert forall|m: int| last < m < entries.len() implies (#[trigger] entries[m]).obj_name@ != name
        || entries[m].attrs.has_dir() by {
        if entries[m].obj_name@ == name {
            assert(has_name(image, from, m, name));
        }
    }
    lemma_last_is(entries, name, last);
}

/// One slot of a directory.
pub proof fn lemma_slot(image: Seq<u8>, place: int, i: int)
    requires
        0 <= place,
        holds_directory(image, place),
        in_use(image, place, i),
    ensures
        ({
            let entries = directory_at(image, place).entries;
            &&& 0 <= i < entries.len()
            &&& entries[i] == entry_at(image, slot(place, i))
            &&& entries[i].attrs.has_dir() == is_folder(image, place, i)
            &&& spells(image, slot(place, i) + 22, 3, entries[i].address.0 as int)
            &&& forall|name: Seq<u8>| #[trigger]
                has_name(image, place, i, name) <==> entries[i].obj_name@ == name
        }),
{
    lemma_slots(image, place);
    let entries = directory_at(image, place).entries;
    assert(entries[i] == entry_at(image, slot(place, i)));
}

/// Part of a way is a way.
pub proof fn lemma_shorter_way(
    image: Seq<u8>,
    map: NewMapView,
    path: Seq<Seq<u8>>,
    places: Seq<int>,
    k: int,
)
    requires
        is_way(image, map, path, places),
        0 <= k <= path.len(),
    ensures
        is_way(image, map, path.take(k), places.take(k + 1)),
{
    let (a, b) = (path.take(k), places.take(k + 1));
    assert forall|j: int|
        #![trigger a[j]]
        #![trigger b[j]]
        0 <= j < a.len() implies is_step(image, map, b[j], a[j], b[j + 1]) by {
        assert(path[j] == a[j] && places[j] == b[j] && places[j + 1] == b[j + 1]);
    }
}

/// One more step makes a way longer.
proof fn lemma_longer_way(
    image: Seq<u8>,
    map: NewMapView,
    path: Seq<Seq<u8>>,
    places: Seq<int>,
    name: Seq<u8>,
    to: int,
)
    requires
        is_way(image, map, path, places),
        is_step(image, map, places.last(), name, to),
    ensures
        is_way(image, map, path.push(name), places.push(to)),
{
    let (a, b) = (path.push(name), places.push(to));
    assert forall|j: int|
        #![trigger a[j]]
        #![trigger b[j]]
        0 <= j < a.len() implies is_step(image, map, b[j], a[j], b[j + 1]) by {
        if j < path.len() {
            assert(path[j] == a[j] && places[j] == b[j] && places[j + 1] == b[j + 1]);
        }
    }
}

/// A way leads to the directory that stands at its end, and to no other.
pub proof fn law_ways(image: Seq<u8>, map: NewMapView, path: Seq<Seq<u8>>, places: Seq<int>)
    requires
        is_way(image, map, path, places),
    ensures
        lookup(image, map, path) == Some(FileObjectView::Dir(directory_at(image, places.last()))),
        place_at(image, map, path) == Some(places.last()),
        0 <= places.last(),
        holds_directory(image, places.last()),
    decreases path.len(),
{
    if path.len() == 0 {
        let root = map.leading_block.disc_record.root_dir.0;
        law_root(image, map, places[0]);
        lemma_byte_is_there(map, root, places[0]);
        super::files::lemma_place(map, root, places[0]);
    } else {
        let n = path.len() - 1;
        lemma_shorter_way(image, map, path, places, n);
        law_ways(image, map, path.take(n), places.take(n + 1));
        let from = places.take(n + 1).last();
        assert(from == places[n]);
        assert(is_step(image, map, places[n], path[n], places[n + 1]));
        lemma_step_down(image, map, path.take(n), from, path[n], places[n + 1]);
        assert(path.take(n).push(path[n]) =~= path);
    }
}

/// Where a path leads to a directory there is a way there.
proof fn lemma_some_way(image: Seq<u8>, map: NewMapView, path: Seq<Seq<u8>>)
    requires
        lookup(image, map, path) matches Some(FileObjectView::Dir(_)),
    ensures
        leads_to_directory(image, map, path),
    decreases path.len(),
{
    if path.len() == 0 {
        let root = map.leading_block.disc_record.root_dir;
        let context = Some(
            FaultView::InvalidRoot {
                root_link: root,
                sector_size: map.sector_size() as usize,
            },
        );
        if forall|place: int| !leads_to_byte(map, root.0, place) {
            law_directories_elsewhere(image, map, root.0, context);
        } else {
            let place = choose|place: int| leads_to_byte(map, root.0, place);
            law_root(image, map, place);
            assert(is_way(image, map, path, seq![place]));
        }
    } else {
        let before = path.drop_last();
        lemma_some_way(image, map, before);
        let places = choose|places: Seq<int>| is_way(image, map, before, places);
        law_ways(image, map, before, places);
        assert(before.push(path.last()) =~= path);
        let to = lemma_step_found(image, map, before, places.last(), path.last());
        lemma_longer_way(image, map, before, places, path.last(), to);
    }
}

/// What a path leads to on a disc follows from the bytes of its directories: each name is
/// looked for in the directory before it, the first slot with that name counts, and a
/// directory has to stand where its address leads to.
pub proof fn law_lookup(image: Seq<u8>, map: NewMapView, path: Seq<Seq<u8>>)
    ensures
        lookup(image, map, path) matches Some(FileObjectView::Dir(_)) <==> leads_to_directory(
            image,
            map,
            path,
        ),
        lookup(image, map, path) matches Some(FileObjectView::File(_)) <==> leads_to_file(
            image,
            map,
            path,
        ),
{
    if lookup(image, map, path) matches Some(FileObjectView::Dir(_)) {
        lemma_some_way(image, map, path);
    }
    if leads_to_directory(image, map, path) {
        let places = choose|places: Seq<int>| is_way(image, map, path, places);
        law_ways(image, map, path, places);
    }
    if path.len() > 0 {
        let before = path.drop_last();
        assert(before.push(path.last()) =~= path);
        if lookup(image, map, path) matches Some(FileObjectView::File(_)) {
            lemma_some_way(image, map, before);
            let places = choose|places: Seq<int>| is_way(image, map, before, places);
            law_ways(image, map, before, places);
            lemma_step_to_file(image, map, before, places.last(), path.last());
            let i = choose|i: int| #[trigger]
                is_first(image, places.last(), i, path.last()) && !is_folder(
                    image,
                    places.last(),
                    i,
                );
            assert(is_way(image, map, before, places) && is_first(
                image,
                places.last(),
                i,
                path.last(),
            ));
        }
        if leads_to_file(image, map, path) {
            let (places, i) = choose|places: Seq<int>, i: int| #[trigger]
                is_way(image, map, path.drop_last(), places) && #[trigger] is_first(
                    image,
                    places.last(),
                    i,
                    path.last(),
                ) && !is_folder(image, places.last(), i);
            law_ways(image, map, before, places);
            lemma_step_to_file(image, map, before, places.last(), path.last());
        }
    }
}

/// Where the directories on the way to a path begin.
proof fn lemma_place_on_way(
    image: Seq<u8>,
    map: NewMapView,
    path: Seq<Seq<u8>>,
    places: Seq<int>,
    k: int,
)
    requires
        0 <= k < path.len(),
        is_way(image, map, path.drop_last(), places),
    ensures
        place_at(image, map, path.take(k)) == Some(places[k]),
{
    let before = path.drop_last();
    assert(path.take(k) =~= before.take(k));
    lemma_shorter_way(image, map, before, places, k);
    law_ways(image, map, before.take(k), places.take(k + 1));
    assert(places.take(k + 1).last() == places[k]);
}

/// A way that leads back nowhere meets no directory twice.
proof fn lemma_met_once(image: Seq<u8>, map: NewMapView, path: Seq<Seq<u8>>, places: Seq<int>)
    requires
        path.len() > 0,
        is_way(image, map, path.drop_last(), places),
        forall|k: int| 0 <= k < path.len() ==> !leads_back(image, map, #[trigger] path.take(k)),
    ensures
        places.no_duplicates(),
{
    assert forall|a: int, b: int| 0 <= a < b < places.len() implies places[a] != places[b] by {
        lemma_place_on_way(image, map, path, places, a);
        lemma_place_on_way(image, map, path, places, b);
        let here = path.take(b);
        assert(here.take(a) =~= path.take(a));
        assert(!leads_back(image, map, here));
    }
}

/// A way that meets no directory twice leads back nowhere.
proof fn lemma_not_back(
    image: Seq<u8>,
    map: NewMapView,
    path: Seq<Seq<u8>>,
    places: Seq<int>,
    k: int,
)
    requires
        0 <= k < path.len(),
        is_way(image, map, path.drop_last(), places),
        places.no_duplicates(),
    ensures
        !leads_back(image, map, path.take(k)),
{
    let here = path.take(k);
    lemma_place_on_way(image, map, path, places, k);
    if leads_back(image, map, here) {
        let j = choose|j: int|
            0 <= j < here.len() && place_at(image, map, #[trigger] here.take(j)) == place_at(
                image,
                map,
                here,
            );
        assert(here.take(j) =~= path.take(j));
        lemma_place_on_way(image, map, path, places, j);
        assert(places[j] == places[k]);
    }
}

/// The list of a disc holds nothing that is not there. It holds a path, however long,
/// exactly if the path leads to a directory or to a file, and no directory is met twice on
/// the way to it.
pub proof fn law_list(
    all: Seq<Seq<Seq<u8>>>,
    image: Seq<u8>,
    map: NewMapView,
    path: Seq<Seq<u8>>,
)
    requires
        lists_disc(all, image, map),
    ensures
        all.contains(path) ==> leads_to_directory(image, map, path) || leads_to_file(
            image,
            map,
            path,
        ),
        path.len() == 0 && leads_to_directory(image, map, path) ==> all.contains(path),
        forall|places: Seq<int>|
            path.len() > 0 && #[trigger] is_way(image, map, path.drop_last(), places) ==> (
            all.contains(path) <==> places.no_duplicates() && (leads_to_directory(
                image,
                map,
                path,
            ) || leads_to_file(image, map, path))),
{
    law_lookup(image, map, path);
    assert(all.contains(path) <==> listed(image, map, path));
    if path.len() > 0 {
        assert forall|places: Seq<int>| #[trigger]
            is_way(image, map, path.drop_last(), places) implies (all.contains(path)
            <==> places.no_duplicates() && (leads_to_directory(image, map, path) || leads_to_file(
            image,
            map,
            path,
        ))) by {
            if all.contains(path) {
                lemma_met_once(image, map, path, places);
            }
            if places.no_duplicates() {
                assert forall|k: int| 0 <= k < path.len() implies !leads_back(
                    image,
                    map,
                    #[trigger] path.take(k),
                ) by {
                    lemma_not_back(image, map, path, places, k);
                }
            }
        }
    }
}

} // verus!
