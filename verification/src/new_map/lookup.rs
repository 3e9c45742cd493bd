//! What a disc holds, whatever part of it has been read.

use vstd::prelude::*;

use super::disc_structures::{lemma_first_part, lemma_in_first_part, NewMapView};
use super::filesystem::DirEntry;
use super::sys_structures::{
    fetched, first_named, lemma_populated_keeps, lemma_with_files_keeps, loaded, populated,
    retrieved, root_of, with_files, FormatEView,
};
use super::tree::FileObjectView;
use super::util::{bits_fit, FragmentId};
use super::{FaultView, IoErrorView, ParseErrorView};

verus! {

/// The last file with the given name.
pub open spec fn last_file(entries: Seq<DirEntry>, name: Seq<u8>) -> Option<DirEntry>
    decreases entries.len(),
{
    if entries.len() == 0 {
        None
    } else if !entries.last().attrs.has_dir() && entries.last().obj_name@ == name {
        Some(entries.last())
    } else {
        last_file(entries.drop_last(), name)
    }
}

/// The entry that a name stands for in a directory. The first entry with that name
/// tells whether it is a directory; of several files the last one counts.
pub open spec fn entry_named(entries: Seq<DirEntry>, name: Seq<u8>) -> Option<DirEntry> {
    match first_named(entries, name) {
        None => None,
        Some(entry) => if entry.attrs.has_dir() {
            Some(entry)
        } else {
            last_file(entries, name)
        },
    }
}

/// What a path leads to on a disc.
pub open spec fn lookup(image: Seq<u8>, map: NewMapView, path: Seq<Seq<u8>>) -> Option<
    FileObjectView,
>
    decreases path.len(),
{
    if path.len() == 0 {
        match root_of(image, map) {
            Ok((root, _)) => Some(FileObjectView::Dir(root)),
            Err(_) => None,
        }
    } else {
        match lookup(image, map, path.drop_last()) {
            Some(FileObjectView::Dir(directory)) => match entry_named(
                directory.entries,
                path.last(),
            ) {
                None => None,
                Some(entry) => object_of(image, map, path, entry),
            },
            _ => None,
        }
    }
}

/// What an entry of a directory stands for.
pub open spec fn object_of(
    image: Seq<u8>,
    map: NewMapView,
    path: Seq<Seq<u8>>,
    entry: DirEntry,
) -> Option<FileObjectView> {
    if !entry.attrs.has_dir() {
        Some(FileObjectView::File(entry))
    } else {
        match retrieved(
            image,
            map,
            entry.address,
            map.sector_size(),
            Some(FaultView::InvalidDir { path }),
        ) {
            Ok((child, _)) => Some(FileObjectView::Dir(child)),
            Err(_) => None,
        }
    }
}

/// Whether a name that first stands for a directory is not that of a file too.
pub open spec fn unambiguous(entries: Seq<DirEntry>, name: Seq<u8>) -> bool {
    first_named(entries, name) matches Some(entry) ==> entry.attrs.has_dir() ==> last_file(
        entries,
        name,
    ) is None
}

/// Whether no directory on the way has a file beside a directory with the name that
/// the way goes on with.
pub open spec fn unambiguous_along(image: Seq<u8>, map: NewMapView, path: Seq<Seq<u8>>) -> bool {
    forall|k: int|
        0 <= k < path.len() ==> (lookup(image, map, #[trigger] path.take(k)) matches Some(
            FileObjectView::Dir(directory),
        ) ==> unambiguous(directory.entries, path[k]))
}

/// Whether `key` is how `path` begins.
pub open spec fn begins(key: Seq<Seq<u8>>, path: Seq<Seq<u8>>) -> bool {
    key.len() <= path.len() && key == path.take(key.len() as int)
}

/// Whether the tree holds what the disc holds, as far as it lies on the way along
/// `path`.
pub open spec fn faithful_along(disk: FormatEView, path: Seq<Seq<u8>>) -> bool {
    forall|key: Seq<Seq<u8>>| #[trigger]
        disk.tree.contains_key(key) && begins(key, path) ==> lookup(disk.image, disk.map, key)
            == Some(disk.tree[key])
}

/// The entry and the contents of the file that a path leads to on a disc.
pub open spec fn file_at(image: Seq<u8>, map: NewMapView, path: Seq<Seq<u8>>) -> Option<
    (DirEntry, Seq<u8>),
> {
    match lookup(image, map, path) {
        Some(FileObjectView::File(entry)) => if map.fragment(
            entry.address.fragment_number() as FragmentId,
        ) is None {
            None
        } else {
            match map.file_contents(image, entry) {
                Some(contents) => Some((entry, contents)),
                None => None,
            }
        },
        _ => None,
    }
}

/// The first entry with a name is one of the entries, and has that name; there is one
/// wherever an entry has the name.
pub proof fn lemma_first_named(entries: Seq<DirEntry>, name: Seq<u8>)
    ensures
        match first_named(entries, name) {
            Some(entry) => entry.obj_name@ == name && entries.contains(entry),
            None => forall|i: int|
                0 <= i < entries.len() ==> (#[trigger] entries[i]).obj_name@ != name,
        },
    decreases entries.len(),
{
    if entries.len() > 0 {
        if entries[0].obj_name@ == name {
            assert(entries.contains(entries[0]));
        } else {
            let rest = entries.drop_first();
            lemma_first_named(rest, name);
            match first_named(rest, name) {
                Some(entry) => {
                    let i = choose|i: int| 0 <= i < rest.len() && rest[i] == entry;
                    assert(entries[i + 1] == entry);
                },
                None => {
                    assert forall|i: int| 0 <= i < entries.len() implies (
                    #[trigger] entries[i]).obj_name@ != name by {
                        if i > 0 {
                            assert(rest[i - 1] == entries[i]);
                        }
                    }
                },
            }
        }
    }
}

/// The last file with a name is one of the entries, and has that name; there is one
/// wherever a file has the name.
pub proof fn lemma_last_file(entries: Seq<DirEntry>, name: Seq<u8>)
    ensures
        match last_file(entries, name) {
            Some(entry) => {
                &&& entry.obj_name@ == name
                &&& !entry.attrs.has_dir()
                &&& entries.contains(entry)
            },
            None => forall|i: int|
                0 <= i < entries.len() ==> (#[trigger] entries[i]).attrs.has_dir()
                    || entries[i].obj_name@ != name,
        },
    decreases entries.len(),
{
    if entries.len() > 0 {
        let rest = entries.drop_last();
        lemma_last_file(rest, name);
        if !entries.last().attrs.has_dir() && entries.last().obj_name@ == name {
            assert(entries[entries.len() - 1] == entries.last());
        } else {
            match last_file(rest, name) {
                Some(entry) => {
                    let i = choose|i: int| 0 <= i < rest.len() && rest[i] == entry;
                    assert(entries[i] == entry);
                },
                None => {
                    assert forall|i: int| 0 <= i < entries.len() implies (
                    #[trigger] entries[i]).attrs.has_dir() || entries[i].obj_name@ != name by {
                        if i < rest.len() {
                            assert(rest[i] == entries[i]);
                        }
                    }
                },
            }
        }
    }
}

/// What the tree holds once the files of a directory have been put into it.
pub proof fn lemma_with_files(
    tree: Map<Seq<Seq<u8>>, FileObjectView>,
    parent: Seq<Seq<u8>>,
    entries: Seq<DirEntry>,
    key: Seq<Seq<u8>>,
)
    ensures
        ({
            let now = with_files(tree, parent, entries);
            if key.len() > 0 && key.drop_last() == parent && last_file(entries, key.last()) is Some {
                &&& now.contains_key(key)
                &&& now[key] == FileObjectView::File(last_file(entries, key.last())->0)
            } else {
                &&& now.contains_key(key) == tree.contains_key(key)
                &&& tree.contains_key(key) ==> now[key] == tree[key]
            }
        }),
    decreases entries.len(),
{
    if entries.len() > 0 {
        lemma_with_files(tree, parent, entries.drop_last(), key);
        let entry = entries.last();
        let child = parent.push(entry.obj_name@);
        assert(child.drop_last() =~= parent);
        if key.len() > 0 && key.drop_last() == parent {
            assert(key =~= parent.push(key.last()));
        }
    }
}

/// A disc that has just been loaded holds in its tree what the disc holds.
pub proof fn lemma_loaded_faithful(image: Seq<u8>, path: Seq<Seq<u8>>)
    ensures
        loaded(image) matches Ok(disk) ==> {
            &&& faithful_along(disk, path)
            &&& disk.tree.contains_key(Seq::<Seq<u8>>::empty())
        },
{
    if let Ok(disk) = loaded(image) {
        assert forall|key: Seq<Seq<u8>>| #[trigger]
            disk.tree.contains_key(key) && begins(key, path) implies lookup(
            disk.image,
            disk.map,
            key,
        ) == Some(disk.tree[key]) by {
            assert(key =~= Seq::<Seq<u8>>::empty());
        }
    }
}

/// Putting the files of a directory into the tree leaves in it what the disc holds.
proof fn lemma_swept_faithful(disk: FormatEView, parent: Seq<Seq<u8>>, path: Seq<Seq<u8>>)
    requires
        faithful_along(disk, path),
        unambiguous_along(disk.image, disk.map, path),
        disk.tree.contains_key(parent),
    ensures
        disk.tree[parent] matches FileObjectView::Dir(directory) ==> faithful_along(
            FormatEView { tree: with_files(disk.tree, parent, directory.entries), ..disk },
            path,
        ),
{
    if let FileObjectView::Dir(directory) = disk.tree[parent] {
        let entries = directory.entries;
        let swept = FormatEView { tree: with_files(disk.tree, parent, entries), ..disk };
        assert forall|key: Seq<Seq<u8>>| #[trigger]
            swept.tree.contains_key(key) && begins(key, path) implies lookup(
            swept.image,
            swept.map,
            key,
        ) == Some(swept.tree[key]) by {
            lemma_with_files(disk.tree, parent, entries, key);
            if key.len() > 0 && key.drop_last() == parent && last_file(entries, key.last()) is Some {
                let k = parent.len() as int;
                assert(path.take(k) =~= parent);
                assert(begins(parent, path));
                assert(path[k] == key.last());
                lemma_last_file(entries, key.last());
                lemma_first_named(entries, key.last());
            } else {
                assert(disk.tree.contains_key(key));
            }
        }
    }
}

/// Putting a directory that was read into the tree leaves in it what the disc holds.
proof fn lemma_inserted_faithful(
    disk: FormatEView,
    stem: Seq<Seq<u8>>,
    object: FileObjectView,
    faults: Seq<FaultView>,
    path: Seq<Seq<u8>>,
)
    requires
        faithful_along(disk, path),
        begins(stem, path) ==> lookup(disk.image, disk.map, stem) == Some(object),
    ensures
        faithful_along(
            FormatEView { tree: disk.tree.insert(stem, object), faults, ..disk },
            path,
        ),
{
    let next = FormatEView { tree: disk.tree.insert(stem, object), faults, ..disk };
    assert forall|key: Seq<Seq<u8>>| #[trigger]
        next.tree.contains_key(key) && begins(key, path) implies lookup(next.image, next.map, key)
        == Some(next.tree[key]) by {
        if key != stem {
            assert(disk.tree.contains_key(key));
        }
    }
}

/// Reading any way leaves in the tree what the disc holds on the way along `path`.
pub proof fn lemma_populated_faithful(
    disk: FormatEView,
    way: Seq<Seq<u8>>,
    n: int,
    path: Seq<Seq<u8>>,
)
    requires
        faithful_along(disk, path),
        unambiguous_along(disk.image, disk.map, path),
        1 <= n <= way.len() + 1,
        disk.tree.contains_key(way.take(n - 1)),
    ensures
        faithful_along(populated(disk, way, n).0, path),
    decreases way.len() + 1 - n,
{
    if n <= way.len() {
        let stem = way.take(n);
        let parent = way.take(n - 1);
        assert(stem.drop_last() =~= parent);
        assert(stem.last() == way[n - 1]);
        assert(way.take(n + 1 - 1) =~= stem);
        if disk.tree.contains_key(stem) {
            lemma_populated_faithful(disk, way, n + 1, path);
        } else if let FileObjectView::Dir(directory) = disk.tree[parent] {
            let entries = directory.entries;
            lemma_swept_faithful(disk, parent, path);
            let swept = FormatEView { tree: with_files(disk.tree, parent, entries), ..disk };
            if let Some(entry) = first_named(entries, way[n - 1]) {
                if entry.attrs.has_dir() {
                    if let Ok((child, faults)) = retrieved(
                        disk.image,
                        disk.map,
                        entry.address,
                        disk.map.sector_size(),
                        Some(FaultView::InvalidDir { path: stem }),
                    ) {
                        if begins(stem, path) {
                            assert(path.take(n - 1) =~= parent);
                            assert(begins(parent, path));
                        }
                        let object = FileObjectView::Dir(child);
                        lemma_inserted_faithful(swept, stem, object, disk.faults + faults, path);
                        let next = FormatEView {
                            tree: swept.tree.insert(stem, object),
                            faults: disk.faults + faults,
                            ..swept
                        };
                        lemma_populated_faithful(next, way, n + 1, path);
                    }
                }
            }
        }
    }
}

/// What lies behind a path that leads to something is a directory.
proof fn lemma_lookup_parent(image: Seq<u8>, map: NewMapView, path: Seq<Seq<u8>>, k: int)
    requires
        0 <= k < path.len(),
        lookup(image, map, path) is Some,
    ensures
        lookup(image, map, path.take(k)) matches Some(FileObjectView::Dir(_)),
    decreases path.len(),
{
    if k == path.len() - 1 {
        assert(path.take(k) =~= path.drop_last());
    } else {
        lemma_lookup_parent(image, map, path.drop_last(), k);
        assert(path.drop_last().take(k) =~= path.take(k));
    }
}

/// Every beginning of a path that leads to something leads to something.
pub proof fn lemma_lookup_beginning(image: Seq<u8>, map: NewMapView, path: Seq<Seq<u8>>, k: int)
    requires
        0 <= k <= path.len(),
        lookup(image, map, path) is Some,
    ensures
        lookup(image, map, path.take(k)) is Some,
        k < path.len() ==> lookup(image, map, path.take(k)) matches Some(FileObjectView::Dir(_)),
{
    if k < path.len() {
        lemma_lookup_parent(image, map, path, k);
    } else {
        assert(path.take(k) =~= path);
    }
}

/// The way to what the disc holds can be read to its end.
proof fn lemma_way_leads_there(disk: FormatEView, path: Seq<Seq<u8>>, n: int)
    requires
        faithful_along(disk, path),
        unambiguous_along(disk.image, disk.map, path),
        1 <= n <= path.len() + 1,
        disk.tree.contains_key(path.take(n - 1)),
        lookup(disk.image, disk.map, path) is Some,
    ensures
        populated(disk, path, n).1 matches Ok(Ok(_)),
        populated(disk, path, n).0.tree.contains_key(path),
    decreases path.len() + 1 - n,
{
    if n > path.len() {
        assert(path.take(n - 1) =~= path);
    } else {
        let stem = path.take(n);
        let parent = path.take(n - 1);
        assert(stem.drop_last() =~= parent);
        assert(stem.last() == path[n - 1]);
        assert(begins(stem, path) && begins(parent, path));
        lemma_lookup_parent(disk.image, disk.map, path, n - 1);
        if n < path.len() {
            lemma_lookup_parent(disk.image, disk.map, path, n);
        } else {
            assert(stem =~= path);
        }
        assert(path.take(n + 1 - 1) =~= stem);
        if disk.tree.contains_key(stem) {
            lemma_way_leads_there(disk, path, n + 1);
        } else {
            assert(lookup(disk.image, disk.map, parent) == Some(disk.tree[parent]));
            assert(lookup(disk.image, disk.map, stem) is Some);
            let directory = match disk.tree[parent] {
                FileObjectView::Dir(directory) => directory,
                FileObjectView::File(_) => arbitrary(),
            };
            let entries = directory.entries;
            lemma_swept_faithful(disk, parent, path);
            let swept = FormatEView { tree: with_files(disk.tree, parent, entries), ..disk };
            lemma_first_named(entries, path[n - 1]);
            lemma_last_file(entries, path[n - 1]);
            let entry = first_named(entries, path[n - 1])->0;
            if !entry.attrs.has_dir() {
                lemma_with_files(disk.tree, parent, entries, stem);
            } else {
                let (child, faults) = retrieved(
                    disk.image,
                    disk.map,
                    entry.address,
                    disk.map.sector_size(),
                    Some(FaultView::InvalidDir { path: stem }),
                )->Ok_0;
                let object = FileObjectView::Dir(child);
                lemma_inserted_faithful(swept, stem, object, disk.faults + faults, path);
                let next = FormatEView {
                    tree: swept.tree.insert(stem, object),
                    faults: disk.faults + faults,
                    ..swept
                };
                lemma_way_leads_there(next, path, n + 1);
            }
        }
    }
}

/// Asking for any file leaves in the tree what the disc holds on the way along `path`.
pub proof fn lemma_fetched_faithful(disk: FormatEView, asked: Seq<Seq<u8>>, path: Seq<Seq<u8>>)
    requires
        faithful_along(disk, path),
        unambiguous_along(disk.image, disk.map, path),
        disk.tree.contains_key(Seq::<Seq<u8>>::empty()),
    ensures
        ({
            let after = fetched(disk, asked).0;
            &&& faithful_along(after, path)
            &&& unambiguous_along(after.image, after.map, path)
            &&& after.tree.contains_key(Seq::<Seq<u8>>::empty())
        }),
{
    assert(asked.take(0) =~= Seq::<Seq<u8>>::empty());
    lemma_populated_keeps(disk, asked, 1);
    lemma_populated_faithful(disk, asked, 1, path);
}

/// Asking for a file hands out its entry and the contents that the disc holds under
/// its path, and does so whatever has been read before; where the disc holds no such
/// file, nothing is handed out. It must not be that a name on the way stands first
/// for a directory and then for a file.
pub proof fn lemma_file_is_what_the_disc_holds(disk: FormatEView, path: Seq<Seq<u8>>)
    requires
        faithful_along(disk, path),
        unambiguous_along(disk.image, disk.map, path),
        disk.tree.contains_key(Seq::<Seq<u8>>::empty()),
    ensures
        match file_at(disk.image, disk.map, path) {
            Some(file) => fetched(disk, path).1 matches Ok(Ok(found)) && found == file,
            None => !(fetched(disk, path).1 matches Ok(Ok(_))),
        },
{
    assert(path.take(0) =~= Seq::<Seq<u8>>::empty());
    assert(path.take(path.len() as int) =~= path);
    lemma_populated_keeps(disk, path, 1);
    lemma_populated_faithful(disk, path, 1, path);
    if lookup(disk.image, disk.map, path) is Some {
        lemma_way_leads_there(disk, path, 1);
    }
    let after = populated(disk, path, 1).0;
    if after.tree.contains_key(path) {
        assert(begins(path, path));
        assert(lookup(after.image, after.map, path) == Some(after.tree[path]));
    }
}

/// Whether the disc holds a file where a path goes on.
pub open spec fn file_on_the_way(image: Seq<u8>, map: NewMapView, path: Seq<Seq<u8>>) -> bool {
    exists|k: int|
        0 <= k < path.len() && (lookup(image, map, #[trigger] path.take(k)) matches Some(
            FileObjectView::File(_),
        ))
}

/// Why a way cannot be read to its end.
proof fn lemma_way_reasons(disk: FormatEView, path: Seq<Seq<u8>>, n: int)
    requires
        faithful_along(disk, path),
        unambiguous_along(disk.image, disk.map, path),
        1 <= n <= path.len() + 1,
        disk.tree.contains_key(path.take(n - 1)),
    ensures
        match populated(disk, path, n).1 {
            Ok(Ok(_)) => true,
            Ok(Err(IoErrorView::MissingTarget(at))) => {
                &&& begins(at, path)
                &&& at.len() > 0
                &&& lookup(disk.image, disk.map, at) is None
                &&& lookup(disk.image, disk.map, at.drop_last()) is Some
            },
            Ok(Err(IoErrorView::InvalidTarget(at))) => {
                &&& begins(at, path)
                &&& file_on_the_way(disk.image, disk.map, path)
            },
            Ok(Err(IoErrorView::MissingFragment(_))) => false,
            Err(_) => lookup(disk.image, disk.map, path) is None,
        },
    decreases path.len() + 1 - n,
{
    if n <= path.len() {
        let stem = path.take(n);
        let parent = path.take(n - 1);
        assert(stem.drop_last() =~= parent);
        assert(stem.last() == path[n - 1]);
        assert(begins(stem, path) && begins(parent, path));
        assert(path.take(n + 1 - 1) =~= stem);
        if disk.tree.contains_key(stem) {
            lemma_way_reasons(disk, path, n + 1);
        } else {
            assert(lookup(disk.image, disk.map, parent) == Some(disk.tree[parent]));
            if let FileObjectView::Dir(directory) = disk.tree[parent] {
                let entries = directory.entries;
                lemma_swept_faithful(disk, parent, path);
                let swept = FormatEView { tree: with_files(disk.tree, parent, entries), ..disk };
                lemma_first_named(entries, path[n - 1]);
                lemma_last_file(entries, path[n - 1]);
                if let Some(entry) = first_named(entries, path[n - 1]) {
                    if entry.attrs.has_dir() {
                        match retrieved(
                            disk.image,
                            disk.map,
                            entry.address,
                            disk.map.sector_size(),
                            Some(FaultView::InvalidDir { path: stem }),
                        ) {
                            Ok((child, faults)) => {
                                let object = FileObjectView::Dir(child);
                                lemma_inserted_faithful(
                                    swept,
                                    stem,
                                    object,
                                    disk.faults + faults,
                                    path,
                                );
                                let next = FormatEView {
                                    tree: swept.tree.insert(stem, object),
                                    faults: disk.faults + faults,
                                    ..swept
                                };
                                lemma_way_reasons(next, path, n + 1);
                            },
                            Err(_) => {
                                if lookup(disk.image, disk.map, path) is Some {
                                    lemma_lookup_beginning(disk.image, disk.map, path, n);
                                }
                            },
                        }
                    }
                }
            }
        }
    }
}

/// Why a file is not handed out: the path, or a beginning of it, does not exist on the
/// disc; or there is a file midway through it, or a directory at its end; or no fragment
/// has the number of the file; or a directory on the way, or the place of the
/// file, cannot be read.
pub proof fn lemma_reasons(disk: FormatEView, path: Seq<Seq<u8>>)
    requires
        faithful_along(disk, path),
        unambiguous_along(disk.image, disk.map, path),
        disk.tree.contains_key(Seq::<Seq<u8>>::empty()),
    ensures
        match fetched(disk, path).1 {
            Ok(Ok(_)) => lookup(disk.image, disk.map, path) matches Some(FileObjectView::File(_)),
            Ok(Err(IoErrorView::MissingTarget(at))) => {
                &&& begins(at, path)
                &&& lookup(disk.image, disk.map, at) is None
            },
            Ok(Err(IoErrorView::InvalidTarget(at))) => {
                &&& begins(at, path)
                &&& {
                    ||| file_on_the_way(disk.image, disk.map, path)
                    ||| lookup(disk.image, disk.map, path) matches Some(FileObjectView::Dir(_))
                }
            },
            Ok(Err(IoErrorView::MissingFragment(address))) => {
                &&& lookup(disk.image, disk.map, path) matches Some(FileObjectView::File(entry))
                &&& entry.address == address
                &&& disk.map.fragment(address.fragment_number() as FragmentId) is None
            },
            Err(_) => file_at(disk.image, disk.map, path) is None,
        },
{
    assert(path.take(0) =~= Seq::<Seq<u8>>::empty());
    assert(path.take(path.len() as int) =~= path);
    lemma_populated_keeps(disk, path, 1);
    lemma_populated_faithful(disk, path, 1, path);
    lemma_way_reasons(disk, path, 1);
    if lookup(disk.image, disk.map, path) is Some {
        lemma_way_leads_there(disk, path, 1);
    }
    let after = populated(disk, path, 1).0;
    if after.tree.contains_key(path) {
        assert(begins(path, path));
        assert(lookup(after.image, after.map, path) == Some(after.tree[path]));
    }
}

/// Where a way has been read to its end, the tree holds what each beginning of its path
/// leads to.
pub proof fn lemma_way_is_in_the_tree(disk: FormatEView, path: Seq<Seq<u8>>, n: int)
    requires
        1 <= n <= path.len() + 1,
        forall|k: int| 0 <= k < n ==> disk.tree.contains_key(#[trigger] path.take(k)),
    ensures
        populated(disk, path, n).1 matches Ok(Ok(_)) ==> forall|k: int|
            0 <= k <= path.len() ==> populated(disk, path, n).0.tree.contains_key(
                #[trigger] path.take(k),
            ),
    decreases path.len() + 1 - n,
{
    if n <= path.len() {
        let stem = path.take(n);
        let parent = path.take(n - 1);
        assert(stem.drop_last() =~= parent);
        assert(stem.last() == path[n - 1]);
        if disk.tree.contains_key(stem) {
            lemma_way_is_in_the_tree(disk, path, n + 1);
        } else if let FileObjectView::Dir(directory) = disk.tree[parent] {
            let entries = directory.entries;
            let swept = with_files(disk.tree, parent, entries);
            lemma_with_files_keeps(disk.tree, parent, entries);
            lemma_first_named(entries, path[n - 1]);
            lemma_last_file(entries, path[n - 1]);
            if let Some(entry) = first_named(entries, path[n - 1]) {
                if !entry.attrs.has_dir() {
                    lemma_with_files(disk.tree, parent, entries, stem);
                    assert forall|k: int| 0 <= k < n implies swept.contains_key(
                        #[trigger] path.take(k),
                    ) by {
                        assert(disk.tree.contains_key(path.take(k)));
                    }
                } else if let Ok((child, faults)) = retrieved(
                    disk.image,
                    disk.map,
                    entry.address,
                    disk.map.sector_size(),
                    Some(FaultView::InvalidDir { path: stem }),
                ) {
                    let next = FormatEView {
                        tree: swept.insert(stem, FileObjectView::Dir(child)),
                        faults: disk.faults + faults,
                        ..disk
                    };
                    assert forall|k: int| 0 <= k < n + 1 implies next.tree.contains_key(
                        #[trigger] path.take(k),
                    ) by {
                        if k < n {
                            assert(disk.tree.contains_key(path.take(k)));
                        }
                    }
                    lemma_way_is_in_the_tree(next, path, n + 1);
                }
            }
        }
    }
}

/// Nothing has to be read where the tree holds what each beginning of a path leads to.
proof fn lemma_nothing_to_read(disk: FormatEView, path: Seq<Seq<u8>>, n: int)
    requires
        1 <= n,
        forall|k: int| 0 <= k <= path.len() ==> disk.tree.contains_key(#[trigger] path.take(k)),
    ensures
        populated(disk, path, n) == (
            disk,
            Ok::<Result<(), IoErrorView>, ParseErrorView>(Ok(())),
        ),
    decreases path.len() + 1 - n,
{
    if n <= path.len() {
        assert(disk.tree.contains_key(path.take(n)));
        lemma_nothing_to_read(disk, path, n + 1);
    }
}

/// A way that has been read to its end can be read again: it leads to its end once more,
/// and nothing changes.
pub proof fn lemma_populated_again(disk: FormatEView, path: Seq<Seq<u8>>)
    requires
        disk.tree.contains_key(Seq::<Seq<u8>>::empty()),
    ensures
        ({
            let (after, way) = populated(disk, path, 1);
            way matches Ok(Ok(_)) ==> populated(after, path, 1) == (after, way)
        }),
{
    assert(path.take(0) =~= Seq::<Seq<u8>>::empty());
    lemma_way_is_in_the_tree(disk, path, 1);
    let (after, way) = populated(disk, path, 1);
    if let Ok(Ok(end)) = way {
        assert(end == ());
        lemma_nothing_to_read(after, path, 1);
    }
}

/// Asking again for what a way led to hands out the same, and changes nothing.
pub proof fn lemma_fetched_again(disk: FormatEView, path: Seq<Seq<u8>>)
    requires
        disk.tree.contains_key(Seq::<Seq<u8>>::empty()),
    ensures
        ({
            let (after, answer) = fetched(disk, path);
            populated(disk, path, 1).1 matches Ok(Ok(_)) ==> fetched(after, path) == (after, answer)
        }),
{
    lemma_populated_again(disk, path);
}

/// A file that lies in the first of its parts has the contents that lie there on the
/// disc.
pub proof fn lemma_file_in_first_part(image: Seq<u8>, map: NewMapView, path: Seq<Seq<u8>>)
    ensures
        lookup(image, map, path) matches Some(FileObjectView::File(entry)) ==> {
            let id = entry.address.fragment_number() as FragmentId;
            let parts = map.file_parts(id);
            let off = map.offset_in_fragment(entry.address);
            let start = parts[0].start + off;
            map.fragment(id) is Some && parts.len() > 0 && start + entry.len <= parts[0].end <= image.len() ==> file_at(
                image,
                map,
                path,
            ) == Some((entry, image.subrange(start, start + entry.len)))
        },
{
    if let Some(FileObjectView::File(entry)) = lookup(image, map, path) {
        let parts = map.file_parts(entry.address.fragment_number() as FragmentId);
        let off = map.offset_in_fragment(entry.address);
        assert(off >= 0) by (nonlinear_arith)
            requires
                off == entry.address.sector() * map.sector_size(),
                entry.address.sector() >= 0,
                map.sector_size() >= 0,
        ;
        if parts.len() > 0 && parts[0].start + off + entry.len <= parts[0].end <= image.len() {
            lemma_in_first_part(image, parts, off, entry.len as int);
        }
    }
}

/// On a format E disc of one zone, a file that lies in the first block for its number
/// has the contents that lie in its region.
pub proof fn lemma_file_in_its_region(image: Seq<u8>, path: Seq<Seq<u8>>)
    requires
        bits_fit(image.len()),
    ensures
        loaded(image) matches Ok(disk) ==> (lookup(image, disk.map, path) matches Some(
            FileObjectView::File(entry),
        ) ==> disk.map.leading_block.disc_record.num_zones == 1 ==> (disk.map.file_region(
            entry,
        ) matches Some((start, end)) ==> {
            let fragment = disk.map.fragment(entry.address.fragment_number() as FragmentId)->0;
            start + entry.len <= fragment.disk_region.end <= image.len() ==> file_at(
                image,
                disk.map,
                path,
            ) == Some((entry, image.subrange(start, end)))
        })),
{
    if let Ok(disk) = loaded(image) {
        if let Some(FileObjectView::File(entry)) = lookup(image, disk.map, path) {
            lemma_first_part(image, entry.address.fragment_number() as FragmentId);
            lemma_file_in_first_part(image, disk.map, path);
        }
    }
}

} // verus!
