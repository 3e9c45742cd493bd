//! The list of everything on a disc.

use vstd::prelude::*;
use vstd::set_lib::*;

use super::disc_structures::NewMapView;
use super::filesystem::{Attributes, DirEntry, Directory};
use super::lookup::{
    begins, entry_named, lemma_first_named, lemma_last_file, lemma_lookup_beginning, lookup,
};
use super::path::Path;
use super::sys_structures::{directory_place, first_named, FormatE};
use super::tree::{
    in_path_order, lemma_names, listed_by_prefix, FileObject, FileObjectView, FileTree,
};
use super::util::make_input;
use super::{Fault, FaultValue};

verus! {

/// Where the directory that a path leads to begins on the disc.
pub open spec fn place_at(image: Seq<u8>, map: NewMapView, path: Seq<Seq<u8>>) -> Option<int> {
    if path.len() == 0 {
        directory_place(map, map.leading_block.disc_record.root_dir, map.sector_size())
    } else {
        match lookup(image, map, path.drop_last()) {
            Some(FileObjectView::Dir(directory)) => match entry_named(
                directory.entries,
                path.last(),
            ) {
                Some(entry) => if entry.attrs.has_dir() {
                    directory_place(map, entry.address, map.sector_size())
                } else {
                    None
                },
                None => None,
            },
            _ => None,
        }
    }
}

/// Whether a path leads back to a directory that lies on the way to it: to one that
/// contains itself.
pub open spec fn leads_back(image: Seq<u8>, map: NewMapView, path: Seq<Seq<u8>>) -> bool {
    &&& place_at(image, map, path) is Some
    &&& exists|k: int|
        0 <= k < path.len() && place_at(image, map, #[trigger] path.take(k)) == place_at(
            image,
            map,
            path,
        )
}

/// Whether a path leads to something without going through a directory that contains
/// itself a second time.
pub open spec fn listed(image: Seq<u8>, map: NewMapView, path: Seq<Seq<u8>>) -> bool {
    &&& lookup(image, map, path) is Some
    &&& forall|k: int| 0 <= k < path.len() ==> !leads_back(image, map, #[trigger] path.take(k))
}

/// Whether `below` lies in the directory `path`.
pub open spec fn lies_below(path: Seq<Seq<u8>>, below: Seq<Seq<u8>>) -> bool {
    path.len() < below.len() && begins(path, below)
}

/// Whether `above` are the places of the directories on the way along `path`, and they
/// are all different.
pub open spec fn way_down(
    image: Seq<u8>,
    map: NewMapView,
    path: Seq<Seq<u8>>,
    above: Seq<usize>,
) -> bool {
    &&& above.len() == path.len() + 1
    &&& above.no_duplicates()
    &&& forall|k: int|
        #![trigger above[k]]
        #![trigger path.take(k)]
        0 <= k <= path.len() ==> {
            &&& above[k] <= image.len()
            &&& place_at(image, map, path.take(k)) == Some(above[k] as int)
        }
}

/// A way down is no longer than there are places for its directories.
proof fn lemma_way_down_ends(
    image: Seq<u8>,
    map: NewMapView,
    path: Seq<Seq<u8>>,
    above: Seq<usize>,
)
    requires
        way_down(image, map, path, above),
    ensures
        path.len() <= image.len(),
{
    let places = above.map_values(|place: usize| place as int);
    assert(places.no_duplicates());
    places.unique_seq_to_set();
    let end = image.len() + 1;
    lemma_int_range(0, end as int);
    assert(places.to_set().subset_of(set_int_range(0, end as int))) by {
        assert forall|place: int| places.to_set().contains(place) implies set_int_range(
            0,
            end as int,
        ).contains(place) by {
            let k = choose|k: int| 0 <= k < places.len() && places[k] == place;
            assert(above[k] == place);
        }
    }
    lemma_len_subset(places.to_set(), set_int_range(0, end as int));
}

/// No directory on a way down is one that the way has met before.
proof fn lemma_way_down_goes_on(
    image: Seq<u8>,
    map: NewMapView,
    path: Seq<Seq<u8>>,
    above: Seq<usize>,
    below: Seq<Seq<u8>>,
    k: int,
)
    requires
        way_down(image, map, path, above),
        begins(path, below),
        0 <= k <= path.len(),
    ensures
        !leads_back(image, map, below.take(k)),
{
    let here = below.take(k);
    assert(here =~= path.take(k));
    if leads_back(image, map, here) {
        let j = choose|j: int|
            0 <= j < here.len() && place_at(image, map, #[trigger] here.take(j)) == place_at(
                image,
                map,
                here,
            );
        assert(here.take(j) =~= path.take(j));
        assert(above[j] == above[k]);
    }
}

/// One step further down.
proof fn lemma_one_step_down(
    image: Seq<u8>,
    map: NewMapView,
    path: Seq<Seq<u8>>,
    above: Seq<usize>,
    child: Seq<Seq<u8>>,
    place: usize,
)
    requires
        way_down(image, map, path, above),
        child.len() == path.len() + 1,
        child.drop_last() == path,
        place <= image.len(),
        place_at(image, map, child) == Some(place as int),
    ensures
        above.contains(place) <==> leads_back(image, map, child),
        !above.contains(place) ==> way_down(image, map, child, above.push(place)),
{
    assert forall|k: int| 0 <= k <= path.len() implies #[trigger] child.take(k) == path.take(k) by {
        assert(child.take(k) =~= path.take(k));
    }
    assert(child.take(child.len() as int) =~= child);
    if above.contains(place) {
        let k = choose|k: int| 0 <= k < above.len() && above[k] == place;
        assert(place_at(image, map, child.take(k)) == place_at(image, map, child));
    } else {
        if leads_back(image, map, child) {
            let k = choose|k: int|
                0 <= k < child.len() && place_at(image, map, #[trigger] child.take(k)) == place_at(
                    image,
                    map,
                    child,
                );
            assert(place_at(image, map, path.take(k)) == Some(above[k] as int));
            assert(above[k] == place);
        }
        let longer = above.push(place);
        assert forall|k: int|
            #![trigger longer[k]]
            #![trigger child.take(k)]
            0 <= k <= child.len() implies {
            &&& longer[k] <= image.len()
            &&& place_at(image, map, child.take(k)) == Some(longer[k] as int)
        } by {
            if k < child.len() {
                assert(longer[k] == above[k]);
                assert(child.take(k) == path.take(k));
            }
        }
    }
}

/// Whether `below` is one of the first `n` entries of the directory `path`, or lies
/// in one of them.
pub open spec fn lies_in_entries(
    path: Seq<Seq<u8>>,
    entries: Seq<DirEntry>,
    n: int,
    below: Seq<Seq<u8>>,
) -> bool {
    exists|j: int|
        0 <= j < n && begins(path.push((#[trigger] entries[j]).obj_name@), below)
}

/// Whether these are the paths of everything on a disc, in order. A directory that
/// contains itself is met again in itself; it is on the list there, and what it holds is
/// not on the list a second time.
pub open spec fn lists_disc(all: Seq<Seq<Seq<u8>>>, image: Seq<u8>, map: NewMapView) -> bool {
    &&& in_path_order(all)
    &&& forall|path: Seq<Seq<u8>>| #[trigger] all.contains(path) <==> listed(image, map, path)
}

/// Where a path does not go through a directory a second time, it is on the list if it
/// leads to something, and only then.
pub proof fn lemma_lists_everything(
    all: Seq<Seq<Seq<u8>>>,
    image: Seq<u8>,
    map: NewMapView,
    path: Seq<Seq<u8>>,
)
    requires
        lists_disc(all, image, map),
        forall|k: int| 0 <= k < path.len() ==> !leads_back(image, map, #[trigger] path.take(k)),
    ensures
        all.contains(path) <==> lookup(image, map, path) is Some,
{
}

/// What lies in a directory lies in one of its entries.
proof fn lemma_lies_in_entries(
    image: Seq<u8>,
    map: NewMapView,
    path: Seq<Seq<u8>>,
    entries: Seq<DirEntry>,
    below: Seq<Seq<u8>>,
)
    requires
        lookup(image, map, path) matches Some(FileObjectView::Dir(directory)) && directory.entries
            == entries,
        path.len() < below.len(),
        begins(path, below),
        lookup(image, map, below) is Some,
    ensures
        lies_in_entries(path, entries, entries.len() as int, below),
{
    let k = path.len() as int;
    let child = below.take(k + 1);
    lemma_lookup_beginning(image, map, below, k + 1);
    assert(child.drop_last() =~= path);
    assert(child.last() == below[k]);
    lemma_first_named(entries, below[k]);
    let entry = first_named(entries, below[k])->0;
    let j = choose|j: int| 0 <= j < entries.len() && entries[j] == entry;
    assert(child =~= path.push(entries[j].obj_name@));
    assert(begins(child, below));
}

impl FormatE {
    /// Puts everything that lies in a directory on the list. `above` are the places of
    /// the directories on the way to it, and of the directory itself.
    fn list_directory(
        &self,
        path: &Path,
        directory: &Directory,
        above: &Vec<usize>,
        found: &mut FileTree,
    )
        requires
            self.wf(),
            old(found).wf(),
            lookup(self@.image, self@.map, path@) == Some(FileObjectView::Dir(directory@)),
            way_down(self@.image, self@.map, path@, above@),
            path@.len() <= self@.image.len(),
        ensures
            final(found).wf(),
            forall|below: Seq<Seq<u8>>| #[trigger]
                final(found)@.contains_key(below) <==> old(found)@.contains_key(below) || (
                lies_below(path@, below) && listed(self@.image, self@.map, below)),
        decreases self@.image.len() - path@.len(),
    {
        let ghost image = self@.image;
        let ghost map = self@.map;
        let ghost before = found@;
        let entries: &[DirEntry] = directory.entries();
        let sector_size: usize = self.map.get_disc_record().sector_size_in_bytes();
        let total: usize = entries.len();
        let mut i: usize = 0;
        while i < total
            invariant
                i <= total == entries@.len(),
                entries@ == directory@.entries,
                self.wf(),
                found.wf(),
                image == self@.image,
                map == self@.map,
                sector_size == map.sector_size(),
                lookup(image, map, path@) == Some(FileObjectView::Dir(directory@)),
                way_down(image, map, path@, above@),
                path@.len() <= image.len(),
                forall|below: Seq<Seq<u8>>| #[trigger]
                    found@.contains_key(below) <==> before.contains_key(below) || (lies_in_entries(
                        path@,
                        entries@,
                        i as int,
                        below,
                    ) && listed(image, map, below)),
            decreases total - i,
        {
            let name = entries[i].obj_name;
            let child = path.append(name);
            let ghost child_names = child@;
            let ghost earlier = found@;
            proof {
                assert(child@.drop_last() =~= path@);
                assert(child@.last() == name@);
                lemma_first_named(entries@, name@);
                lemma_last_file(entries@, name@);
                lemma_child_listed(image, map, path@, above@, child@);
            }
            if let Some(entry) = FormatE::find_entry(entries, &name) {
                if !entry.attrs.contains(Attributes::DIR) {
                    assert(lookup(image, map, child@) matches Some(FileObjectView::File(_)));
                    found.insert(child, FileObject::File(entry));
                } else {
                    let input = make_input(self.image.as_slice());
                    match FormatE::retrieve_directory(
                        &self.map,
                        input,
                        entry.address,
                        sector_size,
                        Some(Fault::InvalidDir { path: child.clone() }),
                    ) {
                        Ok(FaultValue(inner, _)) => {
                            assert(lookup(image, map, child@) == Some(
                                FileObjectView::Dir(inner@),
                            ));
                            if let Ok(place) = FormatE::find_directory(
                                &self.map,
                                self.image.len(),
                                entry.address,
                                sector_size,
                            ) {
                                assert(place_at(image, map, child@) == Some(place as int));
                                proof {
                                    lemma_one_step_down(
                                        image,
                                        map,
                                        path@,
                                        above@,
                                        child@,
                                        place,
                                    );
                                }
                                if !contains_place(above, place) {
                                    let mut longer: Vec<usize> = above.clone();
                                    longer.push(place);
                                    proof {
                                        assert(longer@ =~= above@.push(place));
                                        lemma_way_down_ends(image, map, child@, longer@);
                                    }
                                    self.list_directory(&child, &inner, &longer, found);
                                }
                            }
                            found.insert(child, FileObject::Dir(Box::new(inner)));
                        },
                        Err(_) => {
                            assert(lookup(image, map, child@) is None);
                        },
                    }
                }
            }
            proof {
                assert forall|below: Seq<Seq<u8>>| #[trigger]
                    found@.contains_key(below) <==> before.contains_key(below) || (lies_in_entries(
                    path@,
                    entries@,
                    i + 1,
                    below,
                ) && listed(image, map, below)) by {
                    lemma_one_more_entry(path@, entries@, i as int, below);
                    assert(earlier.contains_key(below) <==> before.contains_key(below) || (
                    lies_in_entries(path@, entries@, i as int, below) && listed(
                        image,
                        map,
                        below,
                    )));
                    if begins(child_names, below) && listed(image, map, below) {
                        lemma_lookup_beginning(image, map, below, child_names.len() as int);
                        if below.len() == child_names.len() {
                            assert(below =~= child_names);
                        } else {
                            assert(below.take(child_names.len() as int) == child_names);
                            assert(!leads_back(image, map, child_names));
                        }
                    }
                    if below == child_names {
                        assert(child_names.take(child_names.len() as int) =~= child_names);
                    }
                }
            }
            i = i + 1;
        }
        proof {
            assert forall|below: Seq<Seq<u8>>| #[trigger]
                found@.contains_key(below) <==> before.contains_key(below) || (lies_below(
                path@,
                below,
            ) && listed(image, map, below)) by {
                if listed(image, map, below) {
                    if lies_below(path@, below) {
                        lemma_lies_in_entries(image, map, path@, entries@, below);
                    }
                    if lies_in_entries(path@, entries@, total as int, below) {
                        let j = choose|j: int|
                            0 <= j < total && begins(
                                path@.push((#[trigger] entries@[j]).obj_name@),
                                below,
                            );
                        let child = path@.push(entries@[j].obj_name@);
                        assert(below.take(path@.len() as int) =~= child.take(path@.len() as int));
                        assert(child.take(path@.len() as int) =~= path@);
                    }
                }
            }
        }
    }

    /// The paths of everything on the disc, in order, or of what comes from `prefix`
    /// on as long as `prefix` leads towards it. Nothing that has been read before has
    /// a part in it.
    pub fn entries(&self, prefix: Option<Path>) -> (paths: Vec<Path>)
        requires
            self.wf(),
        ensures
            exists|all: Seq<Seq<Seq<u8>>>|
                {
                    &&& #[trigger] lists_disc(all, self@.image, self@.map)
                    &&& paths@.map_values(|p: Path| p@) == match prefix {
                        Some(prefix) => listed_by_prefix(all, prefix@),
                        None => all,
                    }
                },
    {
        let ghost image = self@.image;
        let ghost map = self@.map;
        let mut found = FileTree::new();
        let root = Path::root_path();
        match FormatE::retrieve_root_obj(self.image.as_slice(), &self.map) {
            Ok(FaultValue(FileObject::Dir(directory), _)) => {
                let inner: &Directory = &*directory;
                let record = self.map.get_disc_record();
                if let Ok(place) = FormatE::find_directory(
                    &self.map,
                    self.image.len(),
                    record.root_dir,
                    record.sector_size_in_bytes(),
                ) {
                    let mut above: Vec<usize> = Vec::new();
                    above.push(place);
                    proof {
                        assert(root@ =~= Seq::<Seq<u8>>::empty());
                        assert forall|k: int|
                            #![trigger above@[k]]
                            #![trigger root@.take(k)]
                            0 <= k <= root@.len() implies {
                            &&& above@[k] <= image.len()
                            &&& place_at(image, map, root@.take(k)) == Some(above@[k] as int)
                        } by {
                            assert(root@.take(k) =~= root@);
                        }
                    }
                    self.list_directory(&root, inner, &above, &mut found);
                }
                found.insert(root, FileObject::Dir(directory));
            },
            _ => {},
        }
        let ghost all = found.names();
        proof {
            assert forall|path: Seq<Seq<u8>>| #[trigger]
                all.contains(path) <==> listed(image, map, path) by {
                lemma_names(found, path);
                if lookup(image, map, path) is Some {
                    lemma_lookup_beginning(image, map, path, 0);
                    assert(path.take(0) =~= Seq::<Seq<u8>>::empty());
                }
                if path.len() == 0 {
                    assert(path =~= Seq::<Seq<u8>>::empty());
                }
            }
            assert(lists_disc(all, image, map));
        }
        let keys: Vec<&Path> = match &prefix {
            Some(prefix) => found.keys_by_prefix(prefix),
            None => found.keys(),
        };
        let mut paths: Vec<Path> = Vec::new();
        let mut i: usize = 0;
        while i < keys.len()
            invariant
                i <= keys@.len(),
                paths@.len() == i,
                forall|j: int| 0 <= j < i ==> (#[trigger] paths@[j])@ == keys@[j]@,
            decreases keys@.len() - i,
        {
            paths.push(keys[i].clone());
            i = i + 1;
        }
        assert(paths@.map_values(|p: Path| p@) =~= keys@.map_values(|p: &Path| p@));
        paths
    }
}

/// What lies in a directory on a way down, and is there, is on the list.
proof fn lemma_child_listed(
    image: Seq<u8>,
    map: NewMapView,
    path: Seq<Seq<u8>>,
    above: Seq<usize>,
    child: Seq<Seq<u8>>,
)
    requires
        way_down(image, map, path, above),
        child.len() == path.len() + 1,
        child.drop_last() == path,
    ensures
        listed(image, map, child) <==> lookup(image, map, child) is Some,
{
    assert(child.take(path.len() as int) =~= path);
    assert forall|k: int| 0 <= k < child.len() implies !leads_back(
        image,
        map,
        #[trigger] child.take(k),
    ) by {
        lemma_way_down_goes_on(image, map, path, above, child, k);
    }
}

/// Whether a place is one of those on the list.
fn contains_place(places: &Vec<usize>, place: usize) -> (r: bool)
    ensures
        r == places@.contains(place),
{
    let total: usize = places.len();
    let mut i: usize = 0;
    while i < total
        invariant
            i <= total == places@.len(),
            forall|j: int| 0 <= j < i ==> places@[j] != place,
        decreases total - i,
    {
        if places[i] == place {
            return true;
        }
        i = i + 1;
    }
    false
}

/// What lies in one more entry.
proof fn lemma_one_more_entry(
    path: Seq<Seq<u8>>,
    entries: Seq<DirEntry>,
    n: int,
    below: Seq<Seq<u8>>,
)
    requires
        0 <= n < entries.len(),
    ensures
        lies_in_entries(path, entries, n + 1, below) <==> lies_in_entries(path, entries, n, below)
            || begins(path.push(entries[n].obj_name@), below),
{
    if begins(path.push(entries[n].obj_name@), below) {
        assert(entries[n] == entries[n]);
    }
}

} // verus!
