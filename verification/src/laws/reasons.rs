//! Why a file is not handed out, and what is kept of what was read.

use vstd::prelude::*;

use super::directories::holds_directory;
use super::files::{law_directories_are_found, lemma_place, leads_to_byte, object_named};
use super::ways::{
    has_name, in_use, is_first, is_folder, is_last_file, is_step, is_way, law_ways,
    lemma_byte_is_there, lemma_first_slot, lemma_last_is, lemma_shorter_way, lemma_slot,
    lemma_slots, slot,
};
use crate::new_map::filesystem::{
    directory_at, directory_failure, directory_faults, entry_at, DirEntry,
};
use crate::new_map::lookup::{last_file, lemma_first_named, lemma_with_files};
use crate::new_map::sys_structures::{
    fetched, first_named, is_defect, loaded, populated, retrieved, with_files, FormatEView,
};
use crate::new_map::tree::FileObjectView;
use crate::new_map::util::{DiscPosition, FragmentId};
use crate::new_map::{CauseView, Defect, FaultView, IoErrorView, ParseErrorView};

verus! {

/// The files of a directory that was read are kept, each under its path, the last of those
/// that share one; nothing else changes.
pub proof fn law_files_are_kept(
    tree: Map<Seq<Seq<u8>>, FileObjectView>,
    directory: Seq<Seq<u8>>,
    entries: Seq<DirEntry>,
    key: Seq<Seq<u8>>,
)
    ensures
        ({
            let now = with_files(tree, directory, entries);
            &&& forall|i: int|
                #![trigger entries[i]]
                0 <= i < entries.len() && !entries[i].attrs.has_dir() && key == directory.push(
                    entries[i].obj_name@,
                ) && (forall|j: int|
                    i < j < entries.len() ==> (#[trigger] entries[j]).obj_name@
                        != entries[i].obj_name@ || entries[j].attrs.has_dir())
                    ==> now.contains_key(key) && now[key] == FileObjectView::File(entries[i])
            &&& (forall|i: int|
                #![trigger entries[i]]
                0 <= i < entries.len() && key == directory.push(entries[i].obj_name@)
                    ==> entries[i].attrs.has_dir()) ==> {
                &&& now.contains_key(key) == tree.contains_key(key)
                &&& tree.contains_key(key) ==> now[key] == tree[key]
            }
        }),
{
    lemma_with_files(tree, directory, entries, key);
    assert forall|i: int|
        #![trigger entries[i]]
        0 <= i < entries.len() && !entries[i].attrs.has_dir() && key == directory.push(
            entries[i].obj_name@,
        ) && (forall|j: int|
            i < j < entries.len() ==> (#[trigger] entries[j]).obj_name@ != entries[i].obj_name@
                || entries[j].attrs.has_dir()) implies with_files(
        tree,
        directory,
        entries,
    ).contains_key(key) && with_files(tree, directory, entries)[key] == FileObjectView::File(
        entries[i],
    ) by {
        assert(key.drop_last() =~= directory);
        lemma_last_is(entries, key.last(), i);
    }
    if key.len() > 0 && key.drop_last() == directory && last_file(entries, key.last()) is Some {
        crate::new_map::lookup::lemma_last_file(entries, key.last());
        let i = choose|i: int|
            0 <= i < entries.len() && entries[i] == last_file(entries, key.last())->0;
        assert(key =~= directory.push(entries[i].obj_name@));
    }
}

/// What is reported of the first `n` directories on a way, one after the other.
pub open spec fn faults_along(image: Seq<u8>, places: Seq<int>, n: int) -> Seq<FaultView>
    decreases n,
{
    if n <= 0 {
        Seq::empty()
    } else {
        faults_along(image, places, n - 1) + directory_faults(image, places[n - 1])
    }
}

/// Whether a disc has been read along the first `n` names of a path, and no further.
spec fn is_read_to(disk: FormatEView, path: Seq<Seq<u8>>, places: Seq<int>, n: int) -> bool {
    &&& disk.faults == faults_along(disk.image, places, n + 1)
    &&& disk.tree.contains_key(path.take(n))
    &&& disk.tree[path.take(n)] == FileObjectView::Dir(directory_at(disk.image, places[n]))
    &&& forall|m: int| n < m <= path.len() ==> !disk.tree.contains_key(#[trigger] path.take(m))
}

/// One step further along a way.
proof fn lemma_further(
    disk: FormatEView,
    path: Seq<Seq<u8>>,
    places: Seq<int>,
    n: int,
    k: int,
) -> (next: FormatEView)
    requires
        0 <= n < k <= path.len(),
        is_way(disk.image, disk.map, path.take(k), places),
        is_read_to(disk, path, places, n),
    ensures
        next.image == disk.image,
        next.map == disk.map,
        is_read_to(next, path, places, n + 1),
        populated(disk, path, n + 1) == populated(next, path, n + 2),
{
    let (image, map) = (disk.image, disk.map);
    let parent = path.take(n);
    let stem = path.take(n + 1);
    let name = path[n];
    let entries = directory_at(image, places[n]).entries;
    assert(stem.drop_last() =~= parent);
    assert(stem.last() == name);
    assert(path.take(n + 1 - 1) =~= parent);
    lemma_shorter_way(image, map, path.take(k), places, n);
    law_ways(image, map, path.take(k).take(n), places.take(n + 1));
    assert(places.take(n + 1).last() == places[n]);
    assert(path.take(k)[n] == name);
    assert(is_step(image, map, places[n], name, places[n + 1]));
    let (i, address) = choose|i: int, address: u32|
        {
            &&& #[trigger] is_first(image, places[n], i, name)
            &&& is_folder(image, places[n], i)
            &&& super::numbers::spells(image, slot(places[n], i) + 22, 3, address as int)
            &&& #[trigger] leads_to_byte(map, address, places[n + 1])
        };
    lemma_first_slot(image, places[n], name);
    lemma_slot(image, places[n], i);
    super::numbers::law_three_bytes(image, slot(places[n], i) + 22, address as int);
    super::numbers::law_three_bytes(
        image,
        slot(places[n], i) + 22,
        entries[i].address.0 as int,
    );
    assert(entries[i].address == DiscPosition(address));
    let context = Some(FaultView::InvalidDir { path: stem });
    law_directories_are_found(image, map, address, places[n + 1], context);
    let (child, faults) = retrieved(
        image,
        map,
        DiscPosition(address),
        map.sector_size(),
        context,
    )->Ok_0;
    let swept = FormatEView { tree: with_files(disk.tree, parent, entries), ..disk };
    let next = FormatEView {
        tree: swept.tree.insert(stem, FileObjectView::Dir(child)),
        faults: disk.faults + faults,
        ..swept
    };
    assert(first_named(entries, name) == Some(entries[i]));
    assert(!disk.tree.contains_key(path.take(n + 1)));
    assert forall|m: int| n + 1 < m <= path.len() implies !next.tree.contains_key(
        #[trigger] path.take(m),
    ) by {
        assert(!disk.tree.contains_key(path.take(m)));
        lemma_with_files(disk.tree, parent, entries, path.take(m));
        assert(path.take(m).drop_last().len() == m - 1);
    }
    next
}

/// What becomes of a disc that was just loaded when the way along the first `k` names of a
/// path is read.
proof fn lemma_read_along(
    disk: FormatEView,
    path: Seq<Seq<u8>>,
    places: Seq<int>,
    n: int,
    k: int,
) -> (next: FormatEView)
    requires
        0 <= n <= k <= path.len(),
        is_way(disk.image, disk.map, path.take(k), places),
        is_read_to(disk, path, places, n),
    ensures
        next.image == disk.image,
        next.map == disk.map,
        is_read_to(next, path, places, k),
        populated(disk, path, n + 1) == populated(next, path, k + 1),
    decreases k - n,
{
    if n == k {
        disk
    } else {
        let further = lemma_further(disk, path, places, n, k);
        lemma_read_along(further, path, places, n + 1, k)
    }
}

proof fn lemma_just_loaded(image: Seq<u8>, path: Seq<Seq<u8>>, places: Seq<int>, k: int)
    requires
        loaded(image) is Ok,
        0 <= k <= path.len(),
        is_way(image, loaded(image)->Ok_0.map, path.take(k), places),
    ensures
        is_read_to(loaded(image)->Ok_0, path, places, 0),
{
    let disk = loaded(image)->Ok_0;
    assert(path.take(0) =~= Seq::<Seq<u8>>::empty());
    lemma_shorter_way(image, disk.map, path.take(k), places, 0);
    super::files::law_root(image, disk.map, places[0]);
    super::failures::law_loaded(image, places[0]);
    reveal_with_fuel(faults_along, 2);
    assert(faults_along(image, places, 1) =~= directory_faults(image, places[0]));
    assert forall|m: int| 0 < m <= path.len() implies !disk.tree.contains_key(
        #[trigger] path.take(m),
    ) by {
        assert(path.take(m).len() == m);
    }
}

/// When a directory or a file is asked for on a disc that was just loaded, what there is to
/// report of the directories on the way is kept, from the root on, and nothing else.
pub proof fn law_faults_on_the_way(image: Seq<u8>, path: Seq<Seq<u8>>, places: Seq<int>, k: int)
    requires
        loaded(image) is Ok,
        0 <= k <= path.len() <= k + 1,
        is_way(image, loaded(image)->Ok_0.map, path.take(k), places),
        k < path.len() ==> exists|i: int| #[trigger]
            is_first(image, places[k], i, path[k]) && !is_folder(image, places[k], i),
    ensures
        fetched(loaded(image)->Ok_0, path).0.faults == faults_along(image, places, k + 1),
        fetched(loaded(image)->Ok_0, path).0.image == image,
        fetched(loaded(image)->Ok_0, path).0.map == loaded(image)->Ok_0.map,
{
    let disk = loaded(image)->Ok_0;
    lemma_just_loaded(image, path, places, k);
    let next = lemma_read_along(disk, path, places, 0, k);
    if k < path.len() {
        let i = choose|i: int| #[trigger]
            is_first(image, places[k], i, path[k]) && !is_folder(image, places[k], i);
        assert(path.take(k + 1 - 1) =~= path.take(k));
        assert(!next.tree.contains_key(path.take(k + 1)));
        law_ways(image, disk.map, path.take(k), places);
        assert(places.last() == places[k]);
        lemma_first_slot(image, places[k], path[k]);
        lemma_slot(image, places[k], i);
    }
}

/// A disc that was just loaded hands out no file where a path leads to a directory, or where
/// the way ends before the path does. The reason names the path up to the name that the way
/// ends at: nothing there has that name, or a file has it where the path goes on.
pub proof fn law_no_file(image: Seq<u8>, path: Seq<Seq<u8>>, places: Seq<int>, k: int)
    requires
        loaded(image) is Ok,
        0 <= k <= path.len(),
        is_way(image, loaded(image)->Ok_0.map, path.take(k), places),
    ensures
        ({
            let answer = fetched(loaded(image)->Ok_0, path).1;
            &&& k == path.len() ==> (answer matches Ok(Err(IoErrorView::InvalidTarget(at))) && at
                == path)
            &&& k < path.len() && (forall|i: int| !#[trigger] has_name(image, places[k], i, path[k]))
                ==> (answer matches Ok(Err(IoErrorView::MissingTarget(at))) && at == path.take(
                k + 1,
            ))
            &&& forall|i: int|
                k + 1 < path.len() && #[trigger] is_first(image, places[k], i, path[k])
                    && !is_folder(image, places[k], i) ==> (answer matches Ok(
                    Err(IoErrorView::InvalidTarget(at)),
                ) && at == path.take(k + 1))
        }),
{
    let disk = loaded(image)->Ok_0;
    lemma_just_loaded(image, path, places, k);
    let next = lemma_read_along(disk, path, places, 0, k);
    assert(path.take(path.len() as int) =~= path);
    if k < path.len() {
        let entries = directory_at(image, places[k]).entries;
        assert(path.take(k + 1 - 1) =~= path.take(k));
        assert(!next.tree.contains_key(path.take(k + 1)));
        law_ways(image, disk.map, path.take(k), places);
        assert(places.last() == places[k]);
        lemma_first_slot(image, places[k], path[k]);
        lemma_slots(image, places[k]);
        if forall|i: int| !#[trigger] has_name(image, places[k], i, path[k]) {
            lemma_first_named(entries, path[k]);
            if let Some(entry) = first_named(entries, path[k]) {
                let i = choose|i: int| 0 <= i < entries.len() && entries[i] == entry;
                assert(has_name(image, places[k], i, path[k]));
            }
        }
        assert forall|i: int|
            k + 1 < path.len() && #[trigger] is_first(image, places[k], i, path[k]) && !is_folder(
                image,
                places[k],
                i,
            ) implies (fetched(disk, path).1 matches Ok(Err(IoErrorView::InvalidTarget(at))) && at
            == path.take(k + 1)) by {
            assert(in_use(image, places[k], i));
            lemma_slot(image, places[k], i);
        }
    }
}

/// Whether asking for a file fails for a cause, with what was being read.
pub open spec fn fails_with(
    answer: Result<Result<(DirEntry, Seq<u8>), IoErrorView>, ParseErrorView>,
    cause: CauseView,
    context: Option<FaultView>,
) -> bool {
    answer matches Err(e) && e.cause == cause && e.context == context
}

/// What a disc says cannot be followed exactly where the cause of a failure says so.
pub proof fn law_defects(failure: ParseErrorView)
    ensures
        match failure.cause {
            CauseView::Incomplete => !is_defect(failure),
            CauseView::Truncated => !is_defect(failure),
            CauseView::Mismatch => !is_defect(failure),
            CauseView::Fault(_) => !is_defect(failure),
            CauseView::Defect(_) => is_defect(failure),
        },
{
}

/// A disc that was just loaded reports a directory that a path goes through and that cannot
/// be read: no fragment has its number, it begins behind the end of the image, or there is no
/// directory where it should be. In that case the report names the path.
pub proof fn law_unreadable_directory(
    image: Seq<u8>,
    path: Seq<Seq<u8>>,
    places: Seq<int>,
    k: int,
    i: int,
)
    requires
        loaded(image) is Ok,
        0 <= k < path.len(),
        is_way(image, loaded(image)->Ok_0.map, path.take(k), places),
        is_first(image, places[k], i, path[k]),
        is_folder(image, places[k], i),
    ensures
        ({
            let map = loaded(image)->Ok_0.map;
            let answer = fetched(loaded(image)->Ok_0, path).1;
            let address = entry_at(image, slot(places[k], i)).address.0;
            &&& (forall|place: int| !#[trigger] leads_to_byte(map, address, place)) ==> fails_with(
                answer,
                CauseView::Defect(Defect::LostDirectory),
                None,
            )
            &&& forall|place: int| #[trigger]
                leads_to_byte(map, address, place) && place > image.len() ==> fails_with(
                    answer,
                    CauseView::Defect(Defect::OutsideImage),
                    None,
                )
            &&& forall|place: int| #[trigger]
                leads_to_byte(map, address, place) && place <= image.len() && !holds_directory(
                    image,
                    place,
                ) ==> fails_with(
                    answer,
                    directory_failure(image, place)->0,
                    Some(FaultView::InvalidDir { path: path.take(k + 1) }),
                )
        }),
{
    let disk = loaded(image)->Ok_0;
    let map = disk.map;
    lemma_just_loaded(image, path, places, k);
    let next = lemma_read_along(disk, path, places, 0, k);
    assert(path.take(k + 1 - 1) =~= path.take(k));
    assert(!next.tree.contains_key(path.take(k + 1)));
    law_ways(image, map, path.take(k), places);
    assert(places.last() == places[k]);
    lemma_first_slot(image, places[k], path[k]);
    lemma_slot(image, places[k], i);
    let address = entry_at(image, slot(places[k], i)).address.0;
    if let Some(place) = crate::new_map::sys_structures::directory_place(
        map,
        DiscPosition(address),
        map.sector_size(),
    ) {
        lemma_place(map, address, place);
    }
    assert forall|place: int| #[trigger] leads_to_byte(map, address, place) implies {
        &&& place >= 0
        &&& crate::new_map::sys_structures::directory_place(
            map,
            DiscPosition(address),
            map.sector_size(),
        ) == Some(place)
        &&& directory_failure(image, place) is None <==> holds_directory(image, place)
    } by {
        lemma_place(map, address, place);
        lemma_byte_is_there(map, address, place);
        super::directories::law_directory_is_read(image, place);
    }
}

/// A disc that was just loaded reports a file whose object no fragment belongs to, and one
/// that begins behind the end of its object.
pub proof fn law_unreadable_file(
    image: Seq<u8>,
    path: Seq<Seq<u8>>,
    places: Seq<int>,
    first: int,
    last: int,
)
    requires
        loaded(image) is Ok,
        path.len() > 0,
        is_way(image, loaded(image)->Ok_0.map, path.drop_last(), places),
        is_first(image, places.last(), first, path.last()),
        !is_folder(image, places.last(), first),
        is_last_file(image, places.last(), last, path.last()),
    ensures
        ({
            let map = loaded(image)->Ok_0.map;
            let answer = fetched(loaded(image)->Ok_0, path).1;
            let entry = entry_at(image, slot(places.last(), last));
            let id = object_named(entry.address.0) as FragmentId;
            &&& map.fragment(id) is None ==> (answer matches Ok(
                Err(IoErrorView::MissingFragment(at)),
            ) && at == entry.address)
            &&& map.fragment(id) is Some && map.file_contents(image, entry) is None ==> fails_with(
                answer,
                CauseView::Defect(Defect::OutsideImage),
                None,
            )
            &&& map.fragment(id) is Some && map.file_contents(image, entry) is Some ==> (
            answer matches Ok(Ok((found, contents))) && found == entry && Some(contents)
                == map.file_contents(image, entry))
        }),
{
    let disk = loaded(image)->Ok_0;
    let map = disk.map;
    let k = path.len() - 1;
    assert(path.take(k) =~= path.drop_last());
    lemma_just_loaded(image, path, places, k);
    let next = lemma_read_along(disk, path, places, 0, k);
    assert(path.take(k + 1 - 1) =~= path.take(k));
    assert(path.take(k + 1) =~= path);
    assert(!next.tree.contains_key(path.take(k + 1)));
    law_ways(image, map, path.take(k), places);
    assert(places.last() == places[k]);
    lemma_first_slot(image, places[k], path[k]);
    lemma_slot(image, places[k], first);
    lemma_slot(image, places[k], last);
    lemma_slots(image, places[k]);
    let entries = directory_at(image, places[k]).entries;
    assert forall|m: int| last < m < entries.len() implies (#[trigger] entries[m]).obj_name@
        != path.last() || entries[m].attrs.has_dir() by {
        if entries[m].obj_name@ == path.last() {
            assert(has_name(image, places[k], m, path.last()));
        }
    }
    lemma_last_is(entries, path.last(), last);
    lemma_with_files(next.tree, path.take(k), entries, path);
}

} // verus!
