//! The part of the file system that has been read so far.

use vstd::prelude::*;

use super::filesystem::{DirEntry, Directory, DirectoryView};
use super::path::{
    leads_to, lemma_path_order_chain, lemma_path_order_flip, lemma_path_order_same, path_order, Path,
};
use super::util::{
    byte_order, lemma_byte_order_chain, lemma_byte_order_flip, lemma_byte_order_same, Relation,
};

verus! {

/// What a path leads to: a directory, or a file.
#[derive(Debug)]
pub enum FileObject {
    Dir(Box<Directory>),
    File(DirEntry),
}

/// A [`FileObject`] with the view of its directory.
pub enum FileObjectView {
    Dir(DirectoryView),
    File(DirEntry),
}

impl View for FileObject {
    type V = FileObjectView;

    open spec fn view(&self) -> FileObjectView {
        match *self {
            FileObject::Dir(directory) => FileObjectView::Dir((*directory)@),
            FileObject::File(entry) => FileObjectView::File(entry),
        }
    }
}

impl Clone for FileObject {
    fn clone(&self) -> (copy: FileObject)
        ensures
            copy@ == self@,
    {
        match self {
            FileObject::Dir(directory) => {
                let inner: &Directory = &**directory;
                FileObject::Dir(Box::new(inner.clone()))
            },
            FileObject::File(entry) => FileObject::File(*entry),
        }
    }
}

/// Paths and what they lead to, in the order of the paths. No path occurs twice.
#[derive(Debug)]
pub struct FileTree {
    pub entries: Vec<(Path, FileObject)>,
}

/// The paths of some entries.
pub open spec fn key_names(entries: Seq<(Path, FileObject)>) -> Seq<Seq<Seq<u8>>> {
    entries.map_values(|e: (Path, FileObject)| e.0@)
}

/// Whether each path comes before those behind it.
pub open spec fn in_path_order(keys: Seq<Seq<Seq<u8>>>) -> bool {
    forall|i: int, j: int|
        0 <= i < j < keys.len() ==> path_order(#[trigger] keys[i], #[trigger] keys[j])
            == Relation::Before
}

/// Whether `names` is the path of entry `i`.
pub open spec fn is_at(entries: Seq<(Path, FileObject)>, i: int, names: Seq<Seq<u8>>) -> bool {
    0 <= i < entries.len() && entries[i].0@ == names
}

/// What each path leads to.
pub open spec fn tree_map(entries: Seq<(Path, FileObject)>) -> Map<Seq<Seq<u8>>, FileObjectView> {
    Map::new(
        |names: Seq<Seq<u8>>| exists|i: int| is_at(entries, i, names),
        |names: Seq<Seq<u8>>| entries[choose|i: int| is_at(entries, i, names)].1@,
    )
}

impl View for FileTree {
    type V = Map<Seq<Seq<u8>>, FileObjectView>;

    open spec fn view(&self) -> Map<Seq<Seq<u8>>, FileObjectView> {
        tree_map(self.entries@)
    }
}

/// In an ordered list, an entry is what its path leads to.
pub proof fn lemma_entry(entries: Seq<(Path, FileObject)>, i: int)
    requires
        in_path_order(key_names(entries)),
        0 <= i < entries.len(),
    ensures
        tree_map(entries).contains_key(entries[i].0@),
        tree_map(entries)[entries[i].0@] == entries[i].1@,
{
    let names = entries[i].0@;
    let keys = key_names(entries);
    assert(is_at(entries, i, names));
    let j = choose|j: int| is_at(entries, j, names);
    assert(is_at(entries, j, names));
    lemma_path_order_same(names, names);
    assert(keys[i] == names && keys[j] == names);
}

impl FileTree {
    /// The paths, in order.
    pub open spec fn names(&self) -> Seq<Seq<Seq<u8>>> {
        key_names(self.entries@)
    }

    /// Whether the paths come in order.
    pub open spec fn wf(&self) -> bool {
        in_path_order(self.names())
    }

    /// A tree without entries.
    pub fn new() -> (tree: FileTree)
        ensures
            tree.wf(),
            tree@ == Map::<Seq<Seq<u8>>, FileObjectView>::empty(),
    {
        let tree = FileTree { entries: Vec::new() };
        assert(tree@ =~= Map::<Seq<Seq<u8>>, FileObjectView>::empty());
        tree
    }

    /// The first entry whose path does not come before `path`.
    fn place(&self, path: &Path) -> (i: usize)
        requires
            self.wf(),
        ensures
            i <= self.entries@.len(),
            forall|j: int|
                0 <= j < i ==> path_order(#[trigger] self.names()[j], path@) == Relation::Before,
            forall|j: int|
                i <= j < self.entries@.len() ==> path_order(#[trigger] self.names()[j], path@)
                    != Relation::Before,
    {
        let ghost keys = self.names();
        let mut low: usize = 0;
        let mut high: usize = self.entries.len();
        while low < high
            invariant
                keys == self.names(),
                self.wf(),
                low <= high <= self.entries@.len(),
                forall|j: int| 0 <= j < low ==> path_order(#[trigger] keys[j], path@) == Relation::Before,
                forall|j: int|
                    high <= j < self.entries@.len() ==> path_order(#[trigger] keys[j], path@)
                        != Relation::Before,
            decreases high - low,
        {
            let middle: usize = low + (high - low) / 2;
            let relation = self.entries[middle].0.compare(path);
            assert(keys[middle as int] == self.entries@[middle as int].0@);
            if relation == Relation::Before {
                proof {
                    assert forall|j: int| 0 <= j < middle + 1 implies path_order(
                        #[trigger] keys[j],
                        path@,
                    ) == Relation::Before by {
                        if j < middle {
                            lemma_path_order_chain(keys[j], keys[middle as int], path@);
                        }
                    }
                }
                low = middle + 1;
            } else {
                proof {
                    assert forall|j: int| middle <= j < self.entries@.len() implies path_order(
                        #[trigger] keys[j],
                        path@,
                    ) != Relation::Before by {
                        if middle < j {
                            lemma_path_order_chain(keys[middle as int], keys[j], path@);
                        }
                    }
                }
                high = middle;
            }
        }
        low
    }

    /// The paths, in order.
    pub fn keys(&self) -> (keys: Vec<&Path>)
        ensures
            keys@.map_values(|p: &Path| p@) == self.names(),
    {
        let mut keys: Vec<&Path> = Vec::new();
        let mut i: usize = 0;
        while i < self.entries.len()
            invariant
                i <= self.entries@.len(),
                keys@.len() == i,
                forall|j: int| 0 <= j < i ==> (#[trigger] keys@[j])@ == self.entries@[j].0@,
            decreases self.entries@.len() - i,
        {
            keys.push(&self.entries[i].0);
            i = i + 1;
        }
        assert(keys@.map_values(|p: &Path| p@) =~= self.names());
        keys
    }

    /// The paths from `prefix` on, as long as `prefix` leads towards them.
    pub fn keys_by_prefix(&self, prefix: &Path) -> (keys: Vec<&Path>)
        requires
            self.wf(),
        ensures
            keys@.map_values(|p: &Path| p@) == listed_by_prefix(self.names(), prefix@),
    {
        let ghost names = self.names();
        let start: usize = self.place(prefix);
        proof {
            lemma_skip_before(names, prefix@, start as int);
        }
        let mut keys: Vec<&Path> = Vec::new();
        let mut i: usize = start;
        assert(keys@.map_values(|p: &Path| p@) =~= Seq::empty());
        assert(Seq::<Seq<Seq<u8>>>::empty() + take_leading(names.skip(i as int), prefix@)
            =~= take_leading(names.skip(i as int), prefix@));
        while i < self.entries.len() && prefix.is_prefix(&self.entries[i].0)
            invariant
                names == self.names(),
                i <= self.entries@.len(),
                keys@.map_values(|p: &Path| p@) + take_leading(names.skip(i as int), prefix@)
                    == listed_by_prefix(names, prefix@),
            decreases self.entries@.len() - i,
        {
            let ghost so_far = keys@.map_values(|p: &Path| p@);
            keys.push(&self.entries[i].0);
            proof {
                let rest = names.skip(i as int);
                assert(rest[0] == self.entries@[i as int].0@);
                assert(rest.drop_first() =~= names.skip(i + 1));
                let more = take_leading(names.skip(i + 1), prefix@);
                assert(keys@.map_values(|p: &Path| p@) =~= so_far.push(rest[0]));
                assert(so_far + (seq![rest[0]] + more) =~= so_far.push(rest[0]) + more);
            }
            i = i + 1;
        }
        proof {
            let rest = names.skip(i as int);
            if i < self.entries@.len() {
                assert(rest[0] == self.entries@[i as int].0@);
            }
            assert(take_leading(rest, prefix@) =~= Seq::empty());
        }
        keys
    }

    /// What a path leads to.
    pub fn get(&self, path: &Path) -> (r: Option<&FileObject>)
        requires
            self.wf(),
        ensures
            match r {
                Some(object) => self@.contains_key(path@) && self@[path@] == object@,
                None => !self@.contains_key(path@),
            },
    {
        let i: usize = self.place(path);
        let ghost keys = self.names();
        if i < self.entries.len() && self.entries[i].0 == *path {
            proof {
                lemma_entry(self.entries@, i as int);
            }
            Some(&self.entries[i].1)
        } else {
            proof {
                if self@.contains_key(path@) {
                    let j = choose|j: int| is_at(self.entries@, j, path@);
                    assert(keys[j] == path@);
                    lemma_path_order_same(path@, path@);
                    if i < j {
                        assert(path_order(keys[i as int], keys[j]) == Relation::Before);
                    }
                }
            }
            None
        }
    }

    /// Whether a path leads to anything.
    pub fn contains_key(&self, path: &Path) -> (r: bool)
        requires
            self.wf(),
        ensures
            r == self@.contains_key(path@),
    {
        self.get(path).is_some()
    }

    /// Makes a path lead to something, whatever it led to before.
    pub fn insert(&mut self, path: Path, object: FileObject)
        requires
            old(self).wf(),
        ensures
            final(self).wf(),
            final(self)@ == old(self)@.insert(path@, object@),
    {
        let ghost before = self.entries@;
        let ghost keys = self.names();
        let i: usize = self.place(&path);
        if i < self.entries.len() && self.entries[i].0 == path {
            let (key, _) = self.entries.remove(i);
            self.entries.insert(i, (key, object));
            proof {
                let now = self.entries@;
                assert(key_names(now) =~= keys);
                assert forall|names: Seq<Seq<u8>>|
                    self@.contains_key(names) == with_object(before, path@, object@).contains_key(
                        names,
                    ) by {
                    lemma_same_places(before, now, names);
                    assert(is_at(before, i as int, path@));
                }
                assert forall|names: Seq<Seq<u8>>| #[trigger] self@.contains_key(names) implies self@[names]
                    == with_object(before, path@, object@)[names] by {
                    let j = choose|j: int| is_at(now, j, names);
                    lemma_entry(now, j);
                    lemma_entry(before, j);
                    if names == path@ && j != i {
                        lemma_path_order_same(path@, path@);
                        assert(keys[i as int] == keys[j]);
                    }
                }
                assert(self@ =~= with_object(before, path@, object@));
            }
        } else {
            self.entries.insert(i, (path, object));
            proof {
                let now = self.entries@;
                assert(now =~= before.insert(i as int, (path, object)));
                assert(key_names(now) =~= keys.insert(i as int, path@));
                lemma_inserted_in_order(keys, i as int, path@);
                assert forall|names: Seq<Seq<u8>>|
                    self@.contains_key(names) == with_object(before, path@, object@).contains_key(
                        names,
                    ) by {
                    lemma_inserted_places(before, i as int, (path, object), names);
                }
                assert forall|names: Seq<Seq<u8>>| #[trigger] self@.contains_key(names) implies self@[names]
                    == with_object(before, path@, object@)[names] by {
                    let j = choose|j: int| is_at(now, j, names);
                    lemma_entry(now, j);
                    if j < i {
                        lemma_entry(before, j);
                    } else if j > i {
                        lemma_entry(before, j - 1);
                    }
                    lemma_path_order_same(path@, path@);
                    if names == path@ && j != i {
                        assert(key_names(now)[j] == key_names(now)[i as int]);
                    }
                }
                assert(self@ =~= with_object(before, path@, object@));
            }
        }
    }
}

impl Clone for FileTree {
    fn clone(&self) -> (copy: FileTree)
        ensures
            copy.names() == self.names(),
            self.wf() ==> copy@ == self@,
    {
        let mut entries: Vec<(Path, FileObject)> = Vec::new();
        let mut i: usize = 0;
        while i < self.entries.len()
            invariant
                i <= self.entries@.len(),
                entries@.len() == i,
                forall|j: int|
                    0 <= j < i ==> (#[trigger] entries@[j]).0@ == self.entries@[j].0@
                        && entries@[j].1@ == self.entries@[j].1@,
            decreases self.entries@.len() - i,
        {
            entries.push((self.entries[i].0.clone(), self.entries[i].1.clone()));
            i = i + 1;
        }
        proof {
            assert(key_names(entries@) =~= self.names());
            if self.wf() {
                assert forall|names: Seq<Seq<u8>>|
                    tree_map(entries@).contains_key(names) == self@.contains_key(names) by {
                    lemma_same_places(entries@, self.entries@, names);
                }
                assert forall|names: Seq<Seq<u8>>| #[trigger]
                    tree_map(entries@).contains_key(names) implies tree_map(entries@)[names]
                    == self@[names] by {
                    let j = choose|j: int| is_at(entries@, j, names);
                    lemma_entry(entries@, j);
                    lemma_entry(self.entries@, j);
                }
                assert(tree_map(entries@) =~= self@);
            }
        }
        FileTree { entries }
    }
}

/// The paths that do not come before `prefix`.
pub open spec fn skip_before(keys: Seq<Seq<Seq<u8>>>, prefix: Seq<Seq<u8>>) -> Seq<Seq<Seq<u8>>>
    decreases keys.len(),
{
    if keys.len() > 0 && path_order(keys[0], prefix) == Relation::Before {
        skip_before(keys.drop_first(), prefix)
    } else {
        keys
    }
}

/// The paths at the beginning that `prefix` leads towards.
pub open spec fn take_leading(keys: Seq<Seq<Seq<u8>>>, prefix: Seq<Seq<u8>>) -> Seq<Seq<Seq<u8>>>
    decreases keys.len(),
{
    if keys.len() > 0 && leads_to(prefix, keys[0]) {
        seq![keys[0]] + take_leading(keys.drop_first(), prefix)
    } else {
        Seq::empty()
    }
}

/// The paths from `prefix` on, as long as `prefix` leads towards them.
pub open spec fn listed_by_prefix(keys: Seq<Seq<Seq<u8>>>, prefix: Seq<Seq<u8>>) -> Seq<
    Seq<Seq<u8>>,
> {
    take_leading(skip_before(keys, prefix), prefix)
}

/// Where the paths begin that do not come before `prefix`.
proof fn lemma_skip_before(keys: Seq<Seq<Seq<u8>>>, prefix: Seq<Seq<u8>>, at: int)
    requires
        0 <= at <= keys.len(),
        forall|j: int| 0 <= j < at ==> path_order(#[trigger] keys[j], prefix) == Relation::Before,
        forall|j: int|
            at <= j < keys.len() ==> path_order(#[trigger] keys[j], prefix) != Relation::Before,
    ensures
        skip_before(keys, prefix) == keys.skip(at),
    decreases keys.len(),
{
    if at == 0 {
        assert(keys.skip(0) =~= keys);
    } else {
        let rest = keys.drop_first();
        assert forall|j: int| 0 <= j < at - 1 implies path_order(#[trigger] rest[j], prefix)
            == Relation::Before by {
            assert(rest[j] == keys[j + 1]);
        }
        assert forall|j: int| at - 1 <= j < rest.len() implies path_order(#[trigger] rest[j], prefix)
            != Relation::Before by {
            assert(rest[j] == keys[j + 1]);
        }
        lemma_skip_before(rest, prefix, at - 1);
        assert(rest.skip(at - 1) =~= keys.skip(at));
    }
}

/// The keys of a tree are the paths that lead to something.
pub proof fn lemma_names(tree: FileTree, path: Seq<Seq<u8>>)
    ensures
        tree.names().contains(path) <==> tree@.contains_key(path),
{
    if tree.names().contains(path) {
        let i = choose|i: int| 0 <= i < tree.names().len() && tree.names()[i] == path;
        assert(is_at(tree.entries@, i, path));
    }
    if tree@.contains_key(path) {
        let i = choose|i: int| is_at(tree.entries@, i, path);
        assert(tree.names()[i] == path);
    }
}

/// What paths lead to once one of them has been made to lead to `object`.
spec fn with_object(
    before: Seq<(Path, FileObject)>,
    names: Seq<Seq<u8>>,
    object: FileObjectView,
) -> Map<Seq<Seq<u8>>, FileObjectView> {
    tree_map(before).insert(names, object)
}

/// The same paths at the same places.
proof fn lemma_same_places(
    a: Seq<(Path, FileObject)>,
    b: Seq<(Path, FileObject)>,
    names: Seq<Seq<u8>>,
)
    requires
        key_names(a) == key_names(b),
    ensures
        tree_map(a).contains_key(names) == tree_map(b).contains_key(names),
{
    assert forall|i: int| is_at(a, i, names) == is_at(b, i, names) by {
        assert(a.len() == key_names(a).len() && b.len() == key_names(b).len());
        if 0 <= i < a.len() {
            assert(a[i].0@ == key_names(a)[i] && b[i].0@ == key_names(b)[i]);
        }
    }
    if tree_map(a).contains_key(names) {
        let i = choose|i: int| is_at(a, i, names);
        assert(is_at(b, i, names));
    }
    if tree_map(b).contains_key(names) {
        let i = choose|i: int| is_at(b, i, names);
        assert(is_at(a, i, names));
    }
}

/// The paths after one more entry has been put in.
proof fn lemma_inserted_places(
    before: Seq<(Path, FileObject)>,
    at: int,
    entry: (Path, FileObject),
    names: Seq<Seq<u8>>,
)
    requires
        0 <= at <= before.len(),
    ensures
        tree_map(before.insert(at, entry)).contains_key(names) == (tree_map(before).contains_key(
            names,
        ) || names == entry.0@),
{
    let now = before.insert(at, entry);
    if tree_map(now).contains_key(names) {
        let j = choose|j: int| is_at(now, j, names);
        if j < at {
            assert(is_at(before, j, names));
        } else if j > at {
            assert(is_at(before, j - 1, names));
        }
    }
    if tree_map(before).contains_key(names) {
        let j = choose|j: int| is_at(before, j, names);
        if j < at {
            assert(is_at(now, j, names));
        } else {
            assert(is_at(now, j + 1, names));
        }
    }
    if names == entry.0@ {
        assert(is_at(now, at, names));
    }
}

/// A path that is put where it belongs leaves the paths in order.
proof fn lemma_inserted_in_order(keys: Seq<Seq<Seq<u8>>>, at: int, key: Seq<Seq<u8>>)
    requires
        in_path_order(keys),
        0 <= at <= keys.len(),
        forall|j: int| 0 <= j < at ==> path_order(#[trigger] keys[j], key) == Relation::Before,
        forall|j: int|
            at <= j < keys.len() ==> path_order(#[trigger] keys[j], key) != Relation::Before,
        at < keys.len() ==> keys[at] != key,
    ensures
        in_path_order(keys.insert(at, key)),
{
    let now = keys.insert(at, key);
    assert forall|i: int, j: int| 0 <= i < j < now.len() implies path_order(
        #[trigger] now[i],
        #[trigger] now[j],
    ) == Relation::Before by {
        if i == at {
            let k = j - 1;
            assert(now[j] == keys[k]);
            assert(path_order(keys[k], key) != Relation::Before);
            lemma_path_order_flip(key, keys[k]);
            lemma_path_order_same(keys[k], key);
            lemma_path_order_same(key, keys[k]);
            if keys[k] == key {
                assert(at < k);
                assert(path_order(keys[at], keys[k]) == Relation::Before);
            }
        } else if j == at {
            assert(now[i] == keys[i]);
        } else {
            let a = if i < at {
                i
            } else {
                i - 1
            };
            let b = if j < at {
                j
            } else {
                j - 1
            };
            assert(now[i] == keys[a] && now[j] == keys[b]);
        }
    }
}

/// A name that comes between another and one that begins with that other begins with
/// it too.
proof fn lemma_between_names(a: Seq<u8>, b: Seq<u8>, c: Seq<u8>)
    requires
        byte_order(a, b) != Relation::After,
        byte_order(b, c) != Relation::After,
        a.is_prefix_of(c),
    ensures
        a.is_prefix_of(b),
    decreases a.len(),
{
    if a.len() == 0 {
        assert(b.subrange(0, 0) =~= a);
    } else {
        assert(a[0] == c.subrange(0, a.len() as int)[0]);
        let (x, y, z) = (a.drop_first(), b.drop_first(), c.drop_first());
        assert(z.subrange(0, x.len() as int) =~= c.subrange(0, a.len() as int).drop_first());
        lemma_between_names(x, y, z);
        assert(y.subrange(0, x.len() as int) =~= x);
        assert forall|i: int| 0 <= i < a.len() implies b[i] == a[i] by {
            if i > 0 {
                assert(y.subrange(0, x.len() as int)[i - 1] == x[i - 1]);
            }
        }
        assert(b.subrange(0, a.len() as int) =~= a);
    }
}

/// Whether a path begins with the names of `prefix`, the last of which need only be
/// how the name there begins.
pub open spec fn extends(path: Seq<Seq<u8>>, prefix: Seq<Seq<u8>>) -> bool {
    prefix.len() <= path.len() && leads_to(prefix, path)
}

/// A path that comes between `prefix` and one that extends it extends it too.
proof fn lemma_between_paths(prefix: Seq<Seq<u8>>, between: Seq<Seq<u8>>, path: Seq<Seq<u8>>)
    requires
        path_order(between, prefix) != Relation::Before,
        path_order(between, path) == Relation::Before,
        extends(path, prefix),
    ensures
        extends(between, prefix),
    decreases prefix.len(),
{
    if prefix.len() > 0 {
        lemma_path_order_flip(prefix, between);
        lemma_path_order_flip(between, prefix);
        assert(between.len() > 0);
        lemma_byte_order_flip(prefix[0], between[0]);
        lemma_byte_order_flip(between[0], prefix[0]);
        lemma_byte_order_flip(between[0], path[0]);
        lemma_byte_order_same(prefix[0], between[0]);
        lemma_byte_order_same(between[0], path[0]);
        lemma_byte_order_same(between[0], prefix[0]);
        if prefix.len() == 1 {
            lemma_between_names(prefix[0], between[0], path[0]);
        } else {
            assert(prefix[0] == path[0]);
            lemma_byte_order_same(path[0], path[0]);
            lemma_byte_order_chain(prefix[0], between[0], path[0]);
            assert(between[0] == prefix[0]);
            let (x, y, z) = (prefix.drop_first(), between.drop_first(), path.drop_first());
            assert forall|i: int| 0 <= i < x.len() - 1 implies x[i] == #[trigger] z[i] by {
                assert(prefix[i + 1] == path[i + 1]);
            }
            assert(x[x.len() - 1] == prefix[prefix.len() - 1]);
            assert(z[x.len() - 1] == path[prefix.len() - 1]);
            lemma_between_paths(x, y, z);
            assert forall|i: int| 0 <= i < prefix.len() - 1 implies prefix[i]
                == #[trigger] between[i] by {
                if i > 0 {
                    assert(x[i - 1] == y[i - 1]);
                }
            }
            assert(y[x.len() - 1] == between[prefix.len() - 1]);
        }
    }
}

/// The list by prefix holds only paths that the prefix leads towards, all of them
/// from the list of all paths, and every path that extends the prefix.
pub proof fn lemma_listed_by_prefix(
    keys: Seq<Seq<Seq<u8>>>,
    prefix: Seq<Seq<u8>>,
    path: Seq<Seq<u8>>,
)
    requires
        in_path_order(keys),
    ensures
        listed_by_prefix(keys, prefix).contains(path) ==> keys.contains(path) && leads_to(
            prefix,
            path,
        ),
        keys.contains(path) && extends(path, prefix) ==> listed_by_prefix(keys, prefix).contains(
            path,
        ),
    decreases keys.len(),
{
    if keys.len() > 0 && path_order(keys[0], prefix) == Relation::Before {
        let rest = keys.drop_first();
        lemma_rest_in_order(keys);
        lemma_listed_by_prefix(rest, prefix, path);
        if rest.contains(path) {
            let i = choose|i: int| 0 <= i < rest.len() && rest[i] == path;
            assert(keys[i + 1] == path);
        }
        if keys.contains(path) && extends(path, prefix) {
            let i = choose|i: int| 0 <= i < keys.len() && keys[i] == path;
            lemma_extends_is_not_before(path, prefix);
            assert(rest[i - 1] == path);
        }
    } else {
        lemma_take_leading(keys, prefix, path);
    }
}

/// What extends a path does not come before it.
proof fn lemma_extends_is_not_before(path: Seq<Seq<u8>>, prefix: Seq<Seq<u8>>)
    requires
        extends(path, prefix),
    ensures
        path_order(path, prefix) != Relation::Before,
    decreases prefix.len(),
{
    if prefix.len() > 0 {
        if prefix.len() == 1 {
            lemma_longer_name(prefix[0], path[0]);
            lemma_path_order_same(path.drop_first(), prefix.drop_first());
        } else {
            assert(prefix[0] == path[0]);
            lemma_byte_order_same(path[0], prefix[0]);
            let (x, z) = (prefix.drop_first(), path.drop_first());
            assert forall|i: int| 0 <= i < x.len() - 1 implies x[i] == #[trigger] z[i] by {
                assert(prefix[i + 1] == path[i + 1]);
            }
            assert(x[x.len() - 1] == prefix[prefix.len() - 1]);
            assert(z[x.len() - 1] == path[prefix.len() - 1]);
            lemma_extends_is_not_before(z, x);
        }
    }
}

/// A name does not come before how it begins.
proof fn lemma_longer_name(a: Seq<u8>, b: Seq<u8>)
    requires
        a.is_prefix_of(b),
    ensures
        byte_order(b, a) != Relation::Before,
    decreases a.len(),
{
    if a.len() > 0 {
        assert(a[0] == b.subrange(0, a.len() as int)[0]);
        let (x, y) = (a.drop_first(), b.drop_first());
        assert(y.subrange(0, x.len() as int) =~= b.subrange(0, a.len() as int).drop_first());
        lemma_longer_name(x, y);
    }
}

/// The paths at the beginning that a prefix leads towards, when all of them come at or
/// behind it.
proof fn lemma_take_leading(
    keys: Seq<Seq<Seq<u8>>>,
    prefix: Seq<Seq<u8>>,
    path: Seq<Seq<u8>>,
)
    requires
        in_path_order(keys),
        keys.len() > 0 ==> path_order(keys[0], prefix) != Relation::Before,
    ensures
        take_leading(keys, prefix).contains(path) ==> keys.contains(path) && leads_to(prefix, path),
        keys.contains(path) && extends(path, prefix) ==> take_leading(keys, prefix).contains(path),
    decreases keys.len(),
{
    if keys.len() > 0 {
        let rest = keys.drop_first();
        if keys.contains(path) && extends(path, prefix) {
            let i = choose|i: int| 0 <= i < keys.len() && keys[i] == path;
            if i > 0 {
                assert(path_order(keys[0], keys[i]) == Relation::Before);
                lemma_between_paths(prefix, keys[0], path);
                assert(rest[i - 1] == path);
            }
            assert(leads_to(prefix, keys[0]));
        }
        if leads_to(prefix, keys[0]) {
            lemma_rest_in_order(keys);
            if rest.len() > 0 {
                assert(rest[0] == keys[1]);
                assert(path_order(keys[0], keys[1]) == Relation::Before);
                lemma_path_order_chain(keys[0], keys[1], prefix);
            }
            lemma_take_leading(rest, prefix, path);
            let more = take_leading(rest, prefix);
            let all = seq![keys[0]] + more;
            if all.contains(path) {
                let i = choose|i: int| 0 <= i < all.len() && all[i] == path;
                if i > 0 {
                    assert(more[i - 1] == path);
                    let j = choose|j: int| 0 <= j < rest.len() && rest[j] == path;
                    assert(keys[j + 1] == path);
                } else {
                    assert(keys[0] == path);
                }
            }
            if more.contains(path) {
                let i = choose|i: int| 0 <= i < more.len() && more[i] == path;
                assert(all[i + 1] == path);
            }
            if keys[0] == path {
                assert(all[0] == path);
            }
            if keys.contains(path) && extends(path, prefix) && keys[0] != path {
                let i = choose|i: int| 0 <= i < keys.len() && keys[i] == path;
                assert(rest[i - 1] == path);
            }
        }
    }
}

/// There is only one list, in order, of the same paths.
pub proof fn lemma_list_is_unique(a: Seq<Seq<Seq<u8>>>, b: Seq<Seq<Seq<u8>>>)
    requires
        in_path_order(a),
        in_path_order(b),
        forall|path: Seq<Seq<u8>>| #[trigger] a.contains(path) <==> b.contains(path),
    ensures
        a == b,
    decreases a.len(),
{
    if a.len() == 0 {
        if b.len() > 0 {
            assert(b.contains(b[0]));
            assert(a.contains(b[0]));
        }
        assert(a =~= b);
    } else {
        assert(a.contains(a[0]));
        let i = choose|i: int| 0 <= i < b.len() && b[i] == a[0];
        assert(b.contains(b[0]));
        assert(a.contains(b[0]));
        let j = choose|j: int| 0 <= j < a.len() && a[j] == b[0];
        if a[0] != b[0] {
            assert(path_order(b[0], b[i]) == Relation::Before);
            assert(path_order(a[0], a[j]) == Relation::Before);
            lemma_path_order_flip(a[0], b[0]);
        }
        let (x, y) = (a.drop_first(), b.drop_first());
        lemma_rest_in_order(a);
        lemma_rest_in_order(b);
        assert forall|path: Seq<Seq<u8>>| #[trigger] x.contains(path) <==> y.contains(path) by {
            lemma_rest_contains(a, path);
            lemma_rest_contains(b, path);
            assert(a.contains(path) <==> b.contains(path));
        }
        lemma_list_is_unique(x, y);
        assert(a =~= seq![a[0]] + x);
        assert(b =~= seq![b[0]] + y);
    }
}

/// What is left of an ordered list is ordered.
proof fn lemma_rest_in_order(keys: Seq<Seq<Seq<u8>>>)
    requires
        in_path_order(keys),
        keys.len() > 0,
    ensures
        in_path_order(keys.drop_first()),
{
    let rest = keys.drop_first();
    assert forall|i: int, j: int| 0 <= i < j < rest.len() implies path_order(
        #[trigger] rest[i],
        #[trigger] rest[j],
    ) == Relation::Before by {
        assert(rest[i] == keys[i + 1] && rest[j] == keys[j + 1]);
    }
}

/// What is left of an ordered list holds all of its paths but the first.
proof fn lemma_rest_contains(keys: Seq<Seq<Seq<u8>>>, path: Seq<Seq<u8>>)
    requires
        in_path_order(keys),
        keys.len() > 0,
    ensures
        keys.drop_first().contains(path) <==> keys.contains(path) && path != keys[0],
{
    let rest = keys.drop_first();
    if rest.contains(path) {
        let i = choose|i: int| 0 <= i < rest.len() && rest[i] == path;
        assert(keys[i + 1] == path);
        assert(path_order(keys[0], keys[i + 1]) == Relation::Before);
        lemma_path_order_same(path, path);
    }
    if keys.contains(path) && path != keys[0] {
        let i = choose|i: int| 0 <= i < keys.len() && keys[i] == path;
        assert(rest[i - 1] == path);
    }
}

} // verus!
