//! A disc as a whole: its image, its map, and the part of the file system that has
//! been read so far.

use std::ops::Range;

use vstd::arithmetic::power2::*;
use vstd::prelude::*;

use super::allocation::first_block;
use super::checksum::append_bytes;
use super::disc_structures::{format_e_map, object_bytes, NewMap, NewMapView};
use super::filesystem::{
    directory_at, directory_failure, directory_faults, Attributes, DirEntry, Directory,
    DirectoryView,
};
use super::lookup::{lemma_populated_again, lemma_way_is_in_the_tree};
use super::tree::{lemma_names, listed_by_prefix};
use super::util::{bits_fit, make_input, DiscPosition, FixedLenString, FragmentId, InputStream};
use super::{
    bare, clone_faults, fault_views, Cause, CauseView, Defect, Fault, FaultValue, FaultView,
    IoError, IoErrorView, ParseError, ParseErrorView,
};

pub use super::path::Path;
pub use super::tree::{FileObject, FileObjectView, FileTree};

verus! {

/// A format E disc.
///
/// What has been read stands in it by value, beside the image that it was read
/// from: discs of this format are small.
#[derive(Debug)]
pub struct FormatE {
    /// The bytes of the disc.
    pub image: Vec<u8>,
    /// The map of the disc.
    pub map: NewMap,
    /// What has been read of the file system.
    pub tree: FileTree,
    /// What was found to be wrong, but did not keep anything from being read.
    pub faults: Vec<Fault>,
}

/// A [`FormatE`] with the views of its parts.
pub struct FormatEView {
    pub image: Seq<u8>,
    pub map: NewMapView,
    pub tree: Map<Seq<Seq<u8>>, FileObjectView>,
    pub faults: Seq<FaultView>,
}

impl View for FormatE {
    type V = FormatEView;

    open spec fn view(&self) -> FormatEView {
        FormatEView {
            image: self.image@,
            map: self.map@,
            tree: self.tree@,
            faults: fault_views(self.faults@),
        }
    }
}

/// Where a directory begins: at its sector of the first block for its number.
pub open spec fn directory_place(
    map: NewMapView,
    addr: DiscPosition,
    sector_size: int,
) -> Option<int> {
    match first_block(map.leading_block.allocations.fragments, addr.fragment_number() as FragmentId) {
        None => None,
        Some(block) => Some(block.disk_region.start + addr.sector() * sector_size),
    }
}

/// The directory that an address in the first zone points at, with what there is to
/// report of it. Where there is none, `context` tells what was being read.
pub open spec fn retrieved(
    image: Seq<u8>,
    map: NewMapView,
    addr: DiscPosition,
    sector_size: int,
    context: Option<FaultView>,
) -> Result<(DirectoryView, Seq<FaultView>), ParseErrorView> {
    match directory_place(map, addr, sector_size) {
        None => Err(bare(CauseView::Defect(Defect::LostDirectory))),
        Some(p) => if p > image.len() {
            Err(bare(CauseView::Defect(Defect::OutsideImage)))
        } else if directory_failure(image, p) is Some {
            Err(ParseErrorView { cause: directory_failure(image, p)->0, context })
        } else {
            Ok((directory_at(image, p), directory_faults(image, p)))
        },
    }
}

/// The disc with the given image: its map and its root directory are read, and
/// nothing else.
pub open spec fn loaded(image: Seq<u8>) -> Result<FormatEView, ParseErrorView> {
    match format_e_map(image, 0) {
        Err(cause) => Err(bare(cause)),
        Ok((map, _)) => match root_of(image, map) {
            Err(e) => Err(e),
            Ok((root, faults)) => Ok(
                FormatEView {
                    image,
                    map,
                    tree: map![Seq::<Seq<u8>>::empty() => FileObjectView::Dir(root)],
                    faults,
                },
            ),
        },
    }
}

/// The root directory of a disc.
pub open spec fn root_of(image: Seq<u8>, map: NewMapView) -> Result<
    (DirectoryView, Seq<FaultView>),
    ParseErrorView,
> {
    let root_link = map.leading_block.disc_record.root_dir;
    retrieved(
        image,
        map,
        root_link,
        map.sector_size(),
        Some(FaultView::InvalidRoot { root_link, sector_size: map.sector_size() as usize }),
    )
}

/// The tree after the files of a directory have been put into it.
pub open spec fn with_files(
    tree: Map<Seq<Seq<u8>>, FileObjectView>,
    directory: Seq<Seq<u8>>,
    entries: Seq<DirEntry>,
) -> Map<Seq<Seq<u8>>, FileObjectView>
    decreases entries.len(),
{
    if entries.len() == 0 {
        tree
    } else {
        let so_far = with_files(tree, directory, entries.drop_last());
        let entry = entries.last();
        if entry.attrs.has_dir() {
            so_far
        } else {
            so_far.insert(directory.push(entry.obj_name@), FileObjectView::File(entry))
        }
    }
}

/// The first entry with the given name.
pub open spec fn first_named(entries: Seq<DirEntry>, name: Seq<u8>) -> Option<DirEntry>
    decreases entries.len(),
{
    if entries.len() == 0 {
        None
    } else if entries[0].obj_name@ == name {
        Some(entries[0])
    } else {
        first_named(entries.drop_first(), name)
    }
}

/// What becomes of a disc when the way along `path` is read, from its first `n`
/// names on, and whether the way leads to its end.
///
/// What is in the tree already is left as it is. Otherwise what the names before
/// lead to has to be a directory. All of its files are put into the tree; then its
/// first entry with the right name is looked up. A file ends the way. A directory is
/// read and put into the tree, and the way goes on from there.
pub open spec fn populated(disk: FormatEView, path: Seq<Seq<u8>>, n: int) -> (
    FormatEView,
    Result<Result<(), IoErrorView>, ParseErrorView>,
)
    decreases path.len() + 1 - n,
{
    let stem = path.take(n);
    let parent = path.take(n - 1);
    if n > path.len() {
        (disk, Ok(Ok(())))
    } else if disk.tree.contains_key(stem) {
        populated(disk, path, n + 1)
    } else {
        match disk.tree[parent] {
            FileObjectView::File(_) => (disk, Ok(Err(IoErrorView::InvalidTarget(stem)))),
            FileObjectView::Dir(directory) => {
                let swept = FormatEView {
                    tree: with_files(disk.tree, parent, directory.entries),
                    ..disk
                };
                match first_named(directory.entries, path[n - 1]) {
                    None => (swept, Ok(Err(IoErrorView::MissingTarget(stem)))),
                    Some(entry) => if !entry.attrs.has_dir() {
                        (
                            swept,
                            if n == path.len() {
                                Ok(Ok(()))
                            } else {
                                Ok(Err(IoErrorView::InvalidTarget(stem)))
                            },
                        )
                    } else {
                        match retrieved(
                            disk.image,
                            disk.map,
                            entry.address,
                            disk.map.sector_size(),
                            Some(FaultView::InvalidDir { path: stem }),
                        ) {
                            Err(e) => (swept, Err(e)),
                            Ok((child, faults)) => populated(
                                FormatEView {
                                    tree: swept.tree.insert(stem, FileObjectView::Dir(child)),
                                    faults: disk.faults + faults,
                                    ..swept
                                },
                                path,
                                n + 1,
                            ),
                        }
                    },
                }
            },
        }
    }
}

/// What a path that has been read leads to: the entry of a file, with its contents.
pub open spec fn contents_of(disk: FormatEView, path: Seq<Seq<u8>>) -> Result<
    Result<(DirEntry, Seq<u8>), IoErrorView>,
    ParseErrorView,
> {
    if !disk.tree.contains_key(path) {
        Ok(Err(IoErrorView::MissingTarget(path)))
    } else {
        match disk.tree[path] {
            FileObjectView::Dir(_) => Ok(Err(IoErrorView::InvalidTarget(path))),
            FileObjectView::File(entry) => if disk.map.fragment(
                entry.address.fragment_number() as FragmentId,
            ) is None {
                Ok(Err(IoErrorView::MissingFragment(entry.address)))
            } else {
                match disk.map.file_contents(disk.image, entry) {
                    None => Err(bare(CauseView::Defect(Defect::OutsideImage))),
                    Some(contents) => Ok(Ok((entry, contents))),
                }
            },
        }
    }
}

/// What becomes of a disc when a file is asked for, and what is handed out: the
/// entry of the file with its contents or the reason why there are none, or the
/// failure to read a directory on the way.
pub open spec fn fetched(disk: FormatEView, path: Seq<Seq<u8>>) -> (
    FormatEView,
    Result<Result<(DirEntry, Seq<u8>), IoErrorView>, ParseErrorView>,
) {
    let (after, way) = populated(disk, path, 1);
    (
        after,
        match way {
            Err(e) => Err(e),
            Ok(Err(e)) => Ok(Err(e)),
            Ok(Ok(_)) => contents_of(after, path),
        },
    )
}

/// The view of what reading a way gives.
pub open spec fn way_view(r: Result<Result<(), IoError>, ParseError>) -> Result<
    Result<(), IoErrorView>,
    ParseErrorView,
> {
    match r {
        Ok(Ok(_)) => Ok(Ok(())),
        Ok(Err(e)) => Ok(Err(e@)),
        Err(e) => Err(e@),
    }
}

/// The view of what asking for a file gives, without the faults.
pub open spec fn file_view(
    r: Result<FaultValue<Result<(DirEntry, Vec<u8>), IoError>>, ParseError>,
) -> Result<Result<(DirEntry, Seq<u8>), IoErrorView>, ParseErrorView> {
    match r {
        Ok(FaultValue(Ok((entry, contents)), _)) => Ok(Ok((entry, contents@))),
        Ok(FaultValue(Err(e), _)) => Ok(Err(e@)),
        Err(e) => Err(e@),
    }
}

/// Reading a way changes neither the image nor the map, and forgets no fault and no
/// path of the tree.
pub proof fn lemma_populated_keeps(disk: FormatEView, path: Seq<Seq<u8>>, n: int)
    requires
        1 <= n,
    ensures
        ({
            let after = populated(disk, path, n).0;
            &&& after.image == disk.image
            &&& after.map == disk.map
            &&& disk.faults.is_prefix_of(after.faults)
            &&& forall|key: Seq<Seq<u8>>| #[trigger]
                disk.tree.contains_key(key) ==> after.tree.contains_key(key)
        }),
    decreases path.len() + 1 - n,
{
    let stem = path.take(n);
    let parent = path.take(n - 1);
    let known = disk.faults.len() as int;
    assert(disk.faults.subrange(0, known) =~= disk.faults);
    if n <= path.len() {
        if disk.tree.contains_key(stem) {
            lemma_populated_keeps(disk, path, n + 1);
        } else if let FileObjectView::Dir(directory) = disk.tree[parent] {
            lemma_with_files_keeps(disk.tree, parent, directory.entries);
            if let Some(entry) = first_named(directory.entries, path[n - 1]) {
                if let Ok((child, faults)) = retrieved(
                    disk.image,
                    disk.map,
                    entry.address,
                    disk.map.sector_size(),
                    Some(FaultView::InvalidDir { path: stem }),
                ) {
                    let next = FormatEView {
                        tree: with_files(disk.tree, parent, directory.entries).insert(
                            stem,
                            FileObjectView::Dir(child),
                        ),
                        faults: disk.faults + faults,
                        ..disk
                    };
                    lemma_populated_keeps(next, path, n + 1);
                    let after = populated(next, path, n + 1).0;
                    let all = next.faults.len() as int;
                    assert(next.faults.subrange(0, known) =~= disk.faults);
                    assert(after.faults.subrange(0, all).subrange(0, known)
                        =~= after.faults.subrange(0, known));
                    assert forall|key: Seq<Seq<u8>>| #[trigger]
                        disk.tree.contains_key(key) implies after.tree.contains_key(key) by {
                        assert(next.tree.contains_key(key));
                    }
                }
            }
        }
    }
}

/// Putting files into a tree takes no path out of it.
pub proof fn lemma_with_files_keeps(
    tree: Map<Seq<Seq<u8>>, FileObjectView>,
    directory: Seq<Seq<u8>>,
    entries: Seq<DirEntry>,
)
    ensures
        forall|key: Seq<Seq<u8>>| #[trigger]
            tree.contains_key(key) ==> with_files(tree, directory, entries).contains_key(key),
    decreases entries.len(),
{
    if entries.len() > 0 {
        lemma_with_files_keeps(tree, directory, entries.drop_last());
    }
}

/// Whether a failure is of the kind that cannot be followed.
pub open spec fn is_defect(e: ParseErrorView) -> bool {
    e.cause is Defect
}

impl FormatE {
    /// What holds of every disc: its root directory has been read, the tree is in
    /// order, and bits of the image can be counted.
    pub open spec fn wf(&self) -> bool {
        &&& self.tree.wf()
        &&& self.tree@.contains_key(Seq::<Seq<u8>>::empty())
        &&& self.map.wf()
        &&& bits_fit(self.image@.len())
    }

    /// Reads the map and the root directory of a disc, as long as they can be
    /// followed.
    pub fn parse(bytes: &[u8]) -> (r: Result<FormatE, ParseError>)
        requires
            bits_fit(bytes@.len()),
            loaded(bytes@) matches Err(e) ==> !is_defect(e),
        ensures
            match r {
                Ok(disk) => {
                    &&& disk.wf()
                    &&& loaded(bytes@) == Ok::<FormatEView, ParseErrorView>(disk@)
                    &&& disk.map.leading_block.regions_in_order(true)
                },
                Err(e) => loaded(bytes@) == Err::<FormatEView, ParseErrorView>(e@),
            },
    {
        FormatE::load(bytes)
    }

    /// Reads the map and the root directory of a disc.
    pub fn load(bytes: &[u8]) -> (r: Result<FormatE, ParseError>)
        requires
            bits_fit(bytes@.len()),
        ensures
            match r {
                Ok(disk) => {
                    &&& disk.wf()
                    &&& loaded(bytes@) == Ok::<FormatEView, ParseErrorView>(disk@)
                    &&& disk.map.leading_block.regions_in_order(true)
                },
                Err(e) => loaded(bytes@) == Err::<FormatEView, ParseErrorView>(e@),
            },
    {
        let image: Vec<u8> = vstd::slice::slice_to_vec(bytes);
        let mut input = make_input(bytes);
        let map = match NewMap::parse_format_e(&mut input) {
            Ok(map) => map,
            Err(e) => {
                return Err(e);
            },
        };
        let FaultValue(root, faults) = match FormatE::retrieve_root_obj(bytes, &map) {
            Ok(value) => value,
            Err(e) => {
                return Err(e);
            },
        };
        let mut tree = FileTree::new();
        tree.insert(Path::root_path(), root);
        let disk = FormatE { image, map, tree, faults };
        proof {
            let (root_view, _) = root_of(bytes@, map@)->Ok_0;
            assert(disk@.tree =~= map![Seq::<Seq<u8>>::empty() => FileObjectView::Dir(root_view)]);
        }
        Ok(disk)
    }

    /// Reads the root directory.
    pub(crate) fn retrieve_root_obj(image: &[u8], map: &NewMap) -> (r: Result<
        FaultValue<FileObject>,
        ParseError,
    >)
        requires
            bits_fit(image@.len()),
            map.wf(),
        ensures
            match r {
                Ok(value) => {
                    &&& root_of(image@, map@) is Ok
                    &&& value.0@ == FileObjectView::Dir(root_of(image@, map@)->Ok_0.0)
                    &&& fault_views(value.1@) == root_of(image@, map@)->Ok_0.1
                },
                Err(e) => root_of(image@, map@) == Err::<
                    (DirectoryView, Seq<FaultView>),
                    ParseErrorView,
                >(e@),
            },
    {
        let input = make_input(image);
        let root_link = map.get_disc_record().root_dir;
        let sector_size: usize = map.get_disc_record().sector_size_in_bytes();
        match FormatE::retrieve_directory(
            map,
            input,
            root_link,
            sector_size,
            Some(Fault::InvalidRoot { root_link, sector_size }),
        ) {
            Ok(FaultValue(root_dir, faults)) => {
                Ok(FaultValue(FileObject::Dir(Box::new(root_dir)), faults))
            },
            Err(e) => Err(e),
        }
    }

    /// Finds the part of the disc that an address points at, and reads it as a
    /// directory.
    pub(crate) fn retrieve_directory(
        map: &NewMap,
        input: InputStream<'_>,
        addr: DiscPosition,
        sector_size: usize,
        context: Option<Fault>,
    ) -> (r: Result<FaultValue<Directory>, ParseError>)
        requires
            input.wf(),
            input.bits_fit(),
            input.pos == 0,
        ensures
            ({
                let expected = retrieved(
                    input.data@,
                    map@,
                    addr,
                    sector_size as int,
                    match context {
                        Some(fault) => Some(fault@),
                        None => None,
                    },
                );
                match r {
                    Ok(value) => {
                        &&& expected is Ok
                        &&& value.0@ == expected->Ok_0.0
                        &&& fault_views(value.1@) == expected->Ok_0.1
                    },
                    Err(e) => expected == Err::<(DirectoryView, Seq<FaultView>), ParseErrorView>(
                        e@,
                    ),
                }
            }),
    {
        let mut cursor = input;
        cursor.pos =
        match FormatE::find_directory(map, input.data.len(), addr, sector_size) {
            Ok(place) => place,
            Err(defect) => {
                return Err(ParseError::new(Cause::Defect(defect)));
            },
        };
        match Directory::parse(&mut cursor) {
            Ok(value) => Ok(value),
            Err(e) => Err(ParseError { cause: e.cause, context }),
        }
    }

    /// Where the directory that an address points at begins, in an image of the given
    /// size.
    pub(crate) fn find_directory(
        map: &NewMap,
        total: usize,
        addr: DiscPosition,
        sector_size: usize,
    ) -> (r: Result<usize, Defect>)
        ensures
            match directory_place(map@, addr, sector_size as int) {
                None => r == Err::<usize, Defect>(Defect::LostDirectory),
                Some(place) => if place > total {
                    r == Err::<usize, Defect>(Defect::OutsideImage)
                } else {
                    r == Ok::<usize, Defect>(place as usize)
                },
            },
            r is Ok ==> directory_place(map@, addr, sector_size as int) == Some(r->Ok_0 as int),
    {
        let start: usize = match map.get_allocation(0).get_fragment(addr.fragment()) {
            None => {
                return Err(Defect::LostDirectory);
            },
            Some(block) => block.disk_region().start,
        };
        match (addr.sector_idx() as usize).checked_mul(sector_size) {
            None => Err(Defect::OutsideImage),
            Some(offset) => match start.checked_add(offset) {
                None => Err(Defect::OutsideImage),
                Some(place) => if place > total {
                    Err(Defect::OutsideImage)
                } else {
                    Ok(place)
                },
            },
        }
    }

    /// Puts the files of a directory into the tree.
    fn add_files(&mut self, directory: &Path, entries: &[DirEntry])
        requires
            old(self).wf(),
        ensures
            final(self).wf(),
            final(self)@ == (FormatEView {
                tree: with_files(old(self)@.tree, directory@, entries@),
                ..old(self)@
            }),
            forall|key: Seq<Seq<u8>>| #[trigger]
                old(self)@.tree.contains_key(key) ==> final(self)@.tree.contains_key(key),
    {
        let ghost before = self@;
        let total: usize = entries.len();
        let mut i: usize = 0;
        assert(entries@.take(0) =~= Seq::empty());
        while i < total
            invariant
                i <= total == entries@.len(),
                before == old(self)@,
                self.wf(),
                self@ == (FormatEView {
                    tree: with_files(before.tree, directory@, entries@.take(i as int)),
                    ..before
                }),
                forall|key: Seq<Seq<u8>>| #[trigger]
                    before.tree.contains_key(key) ==> self@.tree.contains_key(key),
            decreases total - i,
        {
            let child: DirEntry = entries[i];
            proof {
                let next = entries@.take(i + 1);
                assert(next.drop_last() =~= entries@.take(i as int));
                assert(next.last() == child);
            }
            if !child.attrs.contains(Attributes::DIR) {
                self.tree.insert(directory.append(child.obj_name), FileObject::File(child));
            }
            i = i + 1;
        }
        assert(entries@.take(total as int) =~= entries@);
    }

    /// The first entry with the given name.
    pub(crate) fn find_entry(entries: &[DirEntry], name: &FixedLenString<10>) -> (r: Option<DirEntry>)
        ensures
            r == first_named(entries@, name@),
    {
        let total: usize = entries.len();
        let mut i: usize = 0;
        assert(entries@.skip(0) =~= entries@);
        while i < total
            invariant
                i <= total == entries@.len(),
                first_named(entries@, name@) == first_named(entries@.skip(i as int), name@),
            decreases total - i,
        {
            assert(entries@.skip(i as int)[0] == entries@[i as int]);
            if entries[i].obj_name == *name {
                return Some(entries[i]);
            }
            assert(entries@.skip(i as int).drop_first() =~= entries@.skip(i + 1));
            i = i + 1;
        }
        None
    }

    /// Sees to it that the tree holds what `path` and all of its beginnings lead to.
    ///
    /// Where nothing has that path, or a file stands in the middle of it, the inner
    /// result says so. Where a directory on the way cannot be read, the outer one does.
    /// Where the way leads to its end, reading it again changes nothing.
    pub fn populate_path(&mut self, path: &Path) -> (r: Result<Result<(), IoError>, ParseError>)
        requires
            old(self).wf(),
        ensures
            final(self).wf(),
            (final(self)@, way_view(r)) == populated(old(self)@, path@, 1),
            r matches Ok(Ok(_)) ==> {
                &&& forall|n: int|
                    0 <= n <= path@.len() ==> final(self)@.tree.contains_key(
                        #[trigger] path@.take(n),
                    )
                &&& populated(final(self)@, path@, 1) == (
                    final(self)@,
                    Ok::<Result<(), IoErrorView>, ParseErrorView>(Ok(())),
                )
            },
    {
        proof {
            assert(path@.take(0) =~= Seq::<Seq<u8>>::empty());
            lemma_way_is_in_the_tree(self@, path@, 1);
            lemma_populated_again(self@, path@);
        }
        let total: usize = path.len();
        let mut components: usize = 0;
        assert(path@.take(0) =~= Seq::<Seq<u8>>::empty());
        while components < total
            invariant
                components <= total == path@.len(),
                self.wf(),
                old(self).wf(),
                populated(self@, path@, components + 1) == populated(old(self)@, path@, 1),
                self@.tree.contains_key(path@.take(components as int)),
            decreases total - components,
        {
            let stem = path.stem(components + 1);
            if !self.tree.contains_key(&stem) {
                let parent_path = path.stem(components);
                let child_name: FixedLenString<10> = path.segments()[components];
                assert(child_name@ == path@[components as int]);
                let parent: Directory = match self.tree.get(&parent_path) {
                    Some(FileObject::Dir(parent)) => {
                        let inner: &Directory = &**parent;
                        inner.clone()
                    },
                    _ => {
                        return Ok(Err(IoError::InvalidTarget(stem)));
                    },
                };
                let ghost before = self@;
                self.add_files(&parent_path, parent.entries());
                let child_entry: DirEntry = match FormatE::find_entry(
                    parent.entries(),
                    &child_name,
                ) {
                    Some(entry) => entry,
                    None => {
                        return Ok(Err(IoError::MissingTarget(stem)));
                    },
                };
                if !child_entry.attrs.contains(Attributes::DIR) {
                    if components + 1 == total {
                        proof {
                            assert(path@.take(0) =~= Seq::<Seq<u8>>::empty());
                            lemma_way_is_in_the_tree(old(self)@, path@, 1);
                            lemma_populated_again(old(self)@, path@);
                        }
                        return Ok(Ok(()));
                    } else {
                        return Ok(Err(IoError::InvalidTarget(stem)));
                    }
                }
                let sector_size: usize = self.map.get_disc_record().sector_size_in_bytes();
                let input = make_input(self.image.as_slice());
                let FaultValue(child_directory, faults) = match FormatE::retrieve_directory(
                    &self.map,
                    input,
                    child_entry.address,
                    sector_size,
                    Some(Fault::InvalidDir { path: stem.clone() }),
                ) {
                    Ok(value) => value,
                    Err(e) => {
                        return Err(e);
                    },
                };
                let ghost known = self.faults@;
                let ghost found = faults@;
                let mut faults = faults;
                self.faults.append(&mut faults);
                self.tree.insert(stem, FileObject::Dir(Box::new(child_directory)));
                proof {
                    assert(self.faults@ =~= known + found);
                    assert(fault_views(known + found) =~= fault_views(known) + fault_views(found));
                }
            }
            components = components + 1;
        }
        Ok(Ok(()))
    }

    /// The entry of a file and its contents, as long as they can be followed, with
    /// the faults that came to light on the way.
    pub fn get_file(&mut self, path: &Path) -> (r: Result<
        FaultValue<Result<(DirEntry, Vec<u8>), IoError>>,
        ParseError,
    >)
        requires
            old(self).wf(),
            fetched(old(self)@, path@).1 matches Err(e) ==> !is_defect(e),
        ensures
            final(self).wf(),
            (final(self)@, file_view(r)) == fetched(old(self)@, path@),
            r matches Ok(value) ==> fault_views(value.1@) == final(self)@.faults.skip(
                old(self)@.faults.len() as int,
            ),
    {
        self.try_get_file(path)
    }

    /// The entry of a file and its contents, with the faults that came to light on
    /// the way.
    pub fn try_get_file(&mut self, path: &Path) -> (r: Result<
        FaultValue<Result<(DirEntry, Vec<u8>), IoError>>,
        ParseError,
    >)
        requires
            old(self).wf(),
        ensures
            final(self).wf(),
            (final(self)@, file_view(r)) == fetched(old(self)@, path@),
            r matches Ok(value) ==> fault_views(value.1@) == final(self)@.faults.skip(
                old(self)@.faults.len() as int,
            ),
    {
        let known: usize = self.faults.len();
        proof {
            lemma_populated_keeps(self@, path@, 1);
        }
        let way = self.populate_path(path);
        let found: Vec<Fault> = clone_faults(self.faults.as_slice(), known);
        match way {
            Err(e) => Err(e),
            Ok(Err(e)) => Ok(FaultValue(Err(e), found)),
            Ok(Ok(_)) => match self.read_contents(path) {
                Err(e) => Err(e),
                Ok(value) => Ok(FaultValue(value, found)),
            },
        }
    }

    /// The entry of a file that the tree holds, and its contents.
    fn read_contents(&self, path: &Path) -> (r: Result<
        Result<(DirEntry, Vec<u8>), IoError>,
        ParseError,
    >)
        requires
            self.wf(),
        ensures
            match r {
                Ok(Ok((entry, contents))) => contents_of(self@, path@) == Ok::<
                    Result<(DirEntry, Seq<u8>), IoErrorView>,
                    ParseErrorView,
                >(Ok((entry, contents@))),
                Ok(Err(e)) => contents_of(self@, path@) == Ok::<
                    Result<(DirEntry, Seq<u8>), IoErrorView>,
                    ParseErrorView,
                >(Err(e@)),
                Err(e) => contents_of(self@, path@) == Err::<
                    Result<(DirEntry, Seq<u8>), IoErrorView>,
                    ParseErrorView,
                >(e@),
            },
    {
        let dir_entry: DirEntry = match self.tree.get(path) {
            None => {
                return Ok(Err(IoError::MissingTarget(path.clone())));
            },
            Some(FileObject::Dir(_)) => {
                return Ok(Err(IoError::InvalidTarget(path.clone())));
            },
            Some(FileObject::File(entry)) => *entry,
        };
        let id: FragmentId = dir_entry.address.fragment();
        if self.map.get_fragment(id).is_none() {
            return Ok(Err(IoError::MissingFragment(dir_entry.address)));
        }
        let parts: Vec<Range<usize>> = self.map.get_file_parts(id);
        let sector_size: u64 = self.map.get_disc_record().sector_size_in_bytes() as u64;
        proof {
            lemma2_to64();
            if self.map@.leading_block.disc_record.log2_sec_size < 31 {
                lemma_pow2_strictly_increases(
                    self.map@.leading_block.disc_record.log2_sec_size as nat,
                    31,
                );
            }
            assert(dir_entry.address.sector() * sector_size <= 255 * 0x8000_0000) by (nonlinear_arith)
                requires
                    0 <= dir_entry.address.sector() <= 255,
                    sector_size <= 0x8000_0000,
            ;
        }
        let offset: u64 = dir_entry.address.sector_idx() as u64 * sector_size;
        match read_parts(self.image.as_slice(), parts.as_slice(), offset, dir_entry.len as u64) {
            Some(contents) => Ok(Ok((dir_entry, contents))),
            None => Err(ParseError::new(Cause::Defect(Defect::OutsideImage))),
        }
    }

    /// The paths of what has been read, in order.
    pub fn keys(&self) -> (keys: Vec<&Path>)
        requires
            self.wf(),
        ensures
            keys@.map_values(|p: &Path| p@) == self.tree.names(),
            forall|path: Seq<Seq<u8>>|
                self.tree.names().contains(path) <==> #[trigger] self@.tree.contains_key(path),
    {
        proof {
            assert forall|path: Seq<Seq<u8>>|
                self.tree.names().contains(path) <==> #[trigger] self@.tree.contains_key(path) by {
                lemma_names(self.tree, path);
            }
        }
        self.tree.keys()
    }

    /// The paths of what has been read, from `prefix` on as long as `prefix` leads
    /// towards them.
    pub fn keys_by_prefix(&self, prefix: Path) -> (keys: Vec<&Path>)
        requires
            self.wf(),
        ensures
            keys@.map_values(|p: &Path| p@) == listed_by_prefix(self.tree.names(), prefix@),
    {
        self.tree.keys_by_prefix(&prefix)
    }
}

impl Clone for FormatE {
    fn clone(&self) -> (copy: FormatE)
        ensures
            self.wf() ==> copy.wf() && copy@ == self@,
    {
        let copy = FormatE {
            image: self.image.clone(),
            map: self.map.clone(),
            tree: self.tree.clone(),
            faults: clone_faults(self.faults.as_slice(), 0),
        };
        assert(fault_views(self.faults@).skip(0) =~= fault_views(self.faults@));
        copy
    }
}

/// `len` bytes of some parts of an image, one behind the other, from byte `off` on.
fn read_parts(image: &[u8], parts: &[Range<usize>], off: u64, len: u64) -> (r: Option<Vec<u8>>)
    ensures
        match r {
            Some(bytes) => object_bytes(image@, parts@, off as int, len as int) == Some(bytes@),
            None => object_bytes(image@, parts@, off as int, len as int) is None,
        },
{
    let size: usize = image.len();
    let total: usize = parts.len();
    let mut bytes: Vec<u8> = Vec::new();
    let mut off_left: u64 = off;
    let mut len_left: u64 = len;
    let mut i: usize = 0;
    let ghost goal = object_bytes(image@, parts@, off as int, len as int);
    proof {
        assert(parts@.skip(0) =~= parts@);
        if let Some(all) = goal {
            assert(Seq::<u8>::empty() + all =~= all);
        }
    }
    while i < total && (off_left > 0 || len_left > 0)
        invariant
            i <= total == parts@.len(),
            size == image@.len(),
            goal == object_bytes(image@, parts@, off as int, len as int),
            match object_bytes(image@, parts@.skip(i as int), off_left as int, len_left as int) {
                None => goal is None,
                Some(more) => goal == Some(bytes@ + more),
            },
        decreases total - i,
    {
        let start: usize = parts[i].start;
        let end: usize = parts[i].end;
        let part: u64 = if start <= end {
            (end - start) as u64
        } else {
            0
        };
        let ghost before = bytes@;
        proof {
            let rest = parts@.skip(i as int);
            assert(rest[0] == parts@[i as int]);
            assert(rest.drop_first() =~= parts@.skip(i + 1));
        }
        if off_left >= part {
            off_left = off_left - part;
        } else {
            let taken: u64 = if len_left < part - off_left {
                len_left
            } else {
                part - off_left
            };
            let from: usize = start + off_left as usize;
            let to: usize = from + taken as usize;
            if to > size {
                return None;
            }
            append_bytes(&mut bytes, vstd::slice::slice_subrange(image, from, to));
            proof {
                if let Some(more) = object_bytes(
                    image@,
                    parts@.skip(i + 1),
                    0,
                    len_left - taken,
                ) {
                    let piece = image@.subrange(from as int, to as int);
                    assert(before + (piece + more) =~= (before + piece) + more);
                }
            }
            off_left = 0;
            len_left = len_left - taken;
        }
        i = i + 1;
    }
    proof {
        assert(bytes@ + Seq::<u8>::empty() =~= bytes@);
    }
    if off_left > 0 {
        None
    } else {
        Some(bytes)
    }
}

} // verus!
