//! Building the indexes of a directory subtree from what was read of it.
//!
//! Reading the filesystem is left to the caller, who hands over what was
//! learnt about the children of each directory. Every single reading may
//! have failed; what could not be read is left out of the indexes, and the
//! rest is indexed all the same.

use vstd::prelude::*;
use crate::avl::{
    built, insert_into_avl_tree, inserted_all, lemma_built, tree_entries, well_formed, AVLTreeNode,
};
use crate::entry::{entry_views, EntryView, FileMetadata, FileType};
use crate::hash_table::{empty_table, key_text, table_with, HashTable};
use crate::search::{
    collect_by_name, first_with_path, lemma_first_with_path_concat, lemma_selected_concat,
    search_avl_tree, with_name, SearchKey,
};

verus! {

/// What the filesystem says a child of a directory is.
#[derive(Clone, Copy, Debug, PartialEq, Eq, Structural)]
pub enum ChildKind {
    File,
    Directory,
    /// Neither a regular file nor a directory.
    Other,
}

/// What was learnt about one child of a directory. `None` stands for a
/// reading that failed.
#[derive(Debug)]
pub struct ChildRecord {
    pub name: String,
    pub path: String,
    pub kind: Option<ChildKind>,
    /// For a directory the total size of all that is below it, else the
    /// child's own length in bytes.
    pub size: Option<u64>,
    /// For a directory its own children, in the order in which they were
    /// listed.
    pub children: Option<Vec<ChildRecord>>,
}

impl ChildRecord {
    /// The child goes into the ordered index of its directory: its kind and
    /// its size are known, and it is no directory.
    pub open spec fn is_indexed(&self) -> bool {
        &&& self.kind == Some(ChildKind::File) || self.kind == Some(ChildKind::Other)
        &&& self.size is Some
    }

    /// The child goes into the directory hash index: it is a directory whose
    /// size is known.
    pub open spec fn is_hashed(&self) -> bool {
        &&& self.kind == Some(ChildKind::Directory)
        &&& self.size is Some
    }

    /// The child gets an ordered index of its own: it is a directory whose
    /// size is known and that could be listed.
    pub open spec fn is_visited(&self) -> bool {
        &&& self.is_hashed()
        &&& self.children is Some
    }

    /// The entry that stands for the child. Only a regular file is recorded
    /// as a file.
    pub open spec fn file(&self) -> FileMetadata {
        FileMetadata {
            name: self.name,
            path: self.path,
            size: self.size->0,
            file_type: if self.kind == Some(ChildKind::File) {
                FileType::File
            } else {
                FileType::Directory
            },
        }
    }

    /// The mathematical value of the entry that stands for the child.
    pub open spec fn entry(&self) -> EntryView {
        self.file()@
    }

    /// Tells whether the child goes into the ordered index of its directory.
    pub fn indexed(&self) -> (r: bool)
        ensures
            r == self.is_indexed(),
    {
        match self.kind {
            Some(ChildKind::File) => self.size.is_some(),
            Some(ChildKind::Other) => self.size.is_some(),
            _ => false,
        }
    }

    /// Tells whether the child is a directory that is to be indexed, so that
    /// its own children are wanted.
    pub fn wants_listing(&self) -> (r: bool)
        ensures
            r == self.is_hashed(),
    {
        match self.kind {
            Some(ChildKind::Directory) => self.size.is_some(),
            _ => false,
        }
    }

    /// The entry that stands for the child.
    fn to_entry(&self) -> (file: FileMetadata)
        requires
            self.size is Some,
        ensures
            file == self.file(),
    {
        let file_type = match self.kind {
            Some(ChildKind::File) => FileType::File,
            _ => FileType::Directory,
        };
        FileMetadata {
            name: self.name.clone(),
            path: self.path.clone(),
            size: self.size.unwrap(),
            file_type,
        }
    }
}

/// The ordered index of one directory, with the path of that directory.
#[derive(Debug)]
pub struct DirectoryIndex {
    pub path: String,
    pub root: Option<Box<AVLTreeNode>>,
}

/// The mathematical value of a [`DirectoryIndex`]: the path of the directory
/// and the tree of its entries.
pub ghost struct IndexView {
    pub path: Seq<char>,
    pub root: Option<Box<AVLTreeNode>>,
}

impl IndexView {
    /// The entries of the index in ascending order.
    pub open spec fn entries(self) -> Seq<EntryView> {
        tree_entries(self.root)
    }
}

impl View for DirectoryIndex {
    type V = IndexView;

    open spec fn view(&self) -> IndexView {
        IndexView { path: self.path@, root: self.root }
    }
}

/// The mathematical values of a sequence of indexes.
pub open spec fn index_views(s: Seq<DirectoryIndex>) -> Seq<IndexView> {
    s.map_values(|d: DirectoryIndex| d@)
}

/// The entries that go into the ordered index of a directory with the given
/// children, in the order of the listing.
pub open spec fn index_files(children: Seq<ChildRecord>) -> Seq<FileMetadata>
    decreases children.len(),
{
    if children.len() == 0 {
        Seq::empty()
    } else if children.last().is_indexed() {
        index_files(children.drop_last()).push(children.last().file())
    } else {
        index_files(children.drop_last())
    }
}

/// The mathematical values of [`index_files`].
pub open spec fn index_entries(children: Seq<ChildRecord>) -> Seq<EntryView> {
    entry_views(index_files(children))
}

/// The directories below a directory with the given children that go into
/// the hash index, in the order of a depth-first walk: each directory before
/// those below it, and before the children that follow it.
pub open spec fn hashed_entries(children: Seq<ChildRecord>) -> Seq<EntryView>
    decreases children, 0int,
{
    if children.len() == 0 {
        Seq::empty()
    } else {
        hashed_entries(children.drop_last()) + hashed_below(children.last())
    }
}

/// The part of [`hashed_entries`] that one child brings.
pub open spec fn hashed_below(child: ChildRecord) -> Seq<EntryView>
    decreases child, 1int,
{
    if !child.is_hashed() {
        Seq::empty()
    } else {
        match child.children {
            Some(list) => seq![child.entry()] + hashed_entries(list@),
            None => seq![child.entry()],
        }
    }
}

/// The ordered indexes of a directory with the given path and children and
/// of all that is below it, in the order of a depth-first walk: the index of
/// a directory stands before those of the directories below it.
pub open spec fn indexes_of(path: Seq<char>, children: Seq<ChildRecord>) -> Seq<IndexView>
    decreases children, 1int,
{
    seq![IndexView { path, root: built(index_files(children)) }] + indexes_below(
        children,
    )
}

/// The ordered indexes of the directories among the given children and of
/// all that is below them.
pub open spec fn indexes_below(children: Seq<ChildRecord>) -> Seq<IndexView>
    decreases children, 0int,
{
    if children.len() == 0 {
        Seq::empty()
    } else {
        indexes_below(children.drop_last()) + match children.last().children {
            Some(list) => if children.last().is_hashed() {
                indexes_of(children.last().path@, list@)
            } else {
                Seq::empty()
            },
            None => Seq::empty(),
        }
    }
}

/// `table` after the given entries have been put into it one after the
/// other.
pub open spec fn table_with_all(table: Seq<Seq<EntryView>>, entries: Seq<EntryView>) -> Seq<
    Seq<EntryView>,
>
    decreases entries.len(),
{
    if entries.len() == 0 {
        table
    } else {
        table_with(
            table_with_all(table, entries.drop_last()),
            key_text(entries.last()),
            entries.last(),
        )
    }
}

/// The entries of all the given indexes, index after index.
pub open spec fn indexed_entries(indexes: Seq<IndexView>) -> Seq<EntryView>
    decreases indexes.len(),
{
    if indexes.len() == 0 {
        Seq::empty()
    } else {
        indexed_entries(indexes.drop_last()) + indexes.last().entries()
    }
}

/// Listing one more child adds its entry to those of the ordered index, if
/// the child is indexed, and otherwise changes nothing.
pub proof fn lemma_index_files_push(children: Seq<ChildRecord>, child: ChildRecord)
    ensures
        index_files(children.push(child)) == if child.is_indexed() {
            index_files(children).push(child.file())
        } else {
            index_files(children)
        },
{
    assert(children.push(child).drop_last() =~= children);
}

/// No more entries go into the ordered index than there are children.
pub proof fn lemma_index_files_len(children: Seq<ChildRecord>)
    ensures
        index_files(children).len() <= children.len(),
    decreases children.len(),
{
    if children.len() > 0 {
        lemma_index_files_len(children.drop_last());
    }
}

/// The hashed directories of a listing in two parts are those of the first
/// part followed by those of the second.
pub proof fn lemma_hashed_entries_concat(a: Seq<ChildRecord>, b: Seq<ChildRecord>)
    ensures
        hashed_entries(a + b) == hashed_entries(a) + hashed_entries(b),
    decreases b.len(),
{
    if b.len() == 0 {
        assert(a + b =~= a);
        assert(hashed_entries(a) + hashed_entries(b) =~= hashed_entries(a));
    } else {
        assert((a + b).drop_last() =~= a + b.drop_last());
        lemma_hashed_entries_concat(a, b.drop_last());
        assert(hashed_entries(a + b) =~= hashed_entries(a) + hashed_entries(b));
    }
}

/// The indexes below a listing in two parts are those below the first part
/// followed by those below the second.
pub proof fn lemma_indexes_below_concat(a: Seq<ChildRecord>, b: Seq<ChildRecord>)
    ensures
        indexes_below(a + b) == indexes_below(a) + indexes_below(b),
    decreases b.len(),
{
    if b.len() == 0 {
        assert(a + b =~= a);
        assert(indexes_below(a) + indexes_below(b) =~= indexes_below(a));
    } else {
        assert((a + b).drop_last() =~= a + b.drop_last());
        lemma_indexes_below_concat(a, b.drop_last());
        assert(indexes_below(a + b) =~= indexes_below(a) + indexes_below(b));
    }
}

/// Putting two runs of entries into a table one after the other is putting
/// in their concatenation. The number of buckets stays.
pub proof fn lemma_table_with_all_concat(
    table: Seq<Seq<EntryView>>,
    a: Seq<EntryView>,
    b: Seq<EntryView>,
)
    requires
        table.len() > 0,
    ensures
        table_with_all(table, a + b) == table_with_all(table_with_all(table, a), b),
        table_with_all(table, a).len() == table.len(),
    decreases b.len(),
{
    lemma_table_with_all_len(table, a);
    if b.len() == 0 {
        assert(a + b =~= a);
    } else {
        assert((a + b).drop_last() =~= a + b.drop_last());
        assert((a + b).last() == b.last());
        lemma_table_with_all_concat(table, a, b.drop_last());
    }
}

/// Putting entries into a table leaves the number of its buckets as it is.
pub proof fn lemma_table_with_all_len(table: Seq<Seq<EntryView>>, entries: Seq<EntryView>)
    requires
        table.len() > 0,
    ensures
        table_with_all(table, entries).len() == table.len(),
    decreases entries.len(),
{
    if entries.len() > 0 {
        lemma_table_with_all_len(table, entries.drop_last());
    }
}

/// The entries of the ordered index for a listing in two parts are those for
/// the first part followed by those for the second.
pub proof fn lemma_index_files_concat(a: Seq<ChildRecord>, b: Seq<ChildRecord>)
    ensures
        index_files(a + b) == index_files(a) + index_files(b),
    decreases b.len(),
{
    if b.len() == 0 {
        assert(a + b =~= a);
        assert(index_files(a) + index_files(b) =~= index_files(a));
    } else {
        assert((a + b).drop_last() =~= a + b.drop_last());
        lemma_index_files_concat(a, b.drop_last());
        assert(index_files(a + b) =~= index_files(a) + index_files(b));
    }
}

/// `child` as a directory that could not be listed.
pub open spec fn unlisted(child: ChildRecord) -> ChildRecord {
    ChildRecord {
        name: child.name,
        path: child.path,
        kind: child.kind,
        size: child.size,
        children: None,
    }
}

/// A directory that cannot be listed costs its own index and those of the
/// directories below it, and the entries of those directories in the hash
/// index; nothing else.
///
/// The index of the directory above it, those of the directories listed
/// before it and after it, and its own entry in the hash index are the same
/// whether the child at `at` could be listed or not.
pub proof fn lemma_unlisted_directory(path: Seq<char>, children: Seq<ChildRecord>, at: int)
    requires
        0 <= at < children.len(),
        children[at].is_visited(),
    ensures
        ({
            let own = IndexView { path, root: built(index_files(children)) };
            let blocked = children.update(at, unlisted(children[at]));
            let before = children.take(at);
            let after = children.skip(at + 1);
            let below = children[at].children->0@;
            &&& indexes_of(path, children) == seq![own] + indexes_below(before) + indexes_of(
                children[at].path@,
                below,
            ) + indexes_below(after)
            &&& indexes_of(path, blocked) == seq![own] + indexes_below(before) + indexes_below(
                after,
            )
            &&& hashed_entries(children) == hashed_entries(before) + seq![children[at].entry()]
                + hashed_entries(below) + hashed_entries(after)
            &&& hashed_entries(blocked) == hashed_entries(before) + seq![children[at].entry()]
                + hashed_entries(after)
        }),
{
    let child = children[at];
    let blocked = children.update(at, unlisted(child));
    let before = children.take(at);
    let after = children.skip(at + 1);
    let below = child.children->0@;
    assert(children =~= before + seq![child] + after);
    assert(blocked =~= before + seq![unlisted(child)] + after);
    assert(seq![child].drop_last() =~= Seq::empty());
    assert(seq![unlisted(child)].drop_last() =~= Seq::empty());
    assert(Seq::<ChildRecord>::empty().len() == 0);

    lemma_index_files_concat(before + seq![child], after);
    lemma_index_files_concat(before, seq![child]);
    lemma_index_files_concat(before + seq![unlisted(child)], after);
    lemma_index_files_concat(before, seq![unlisted(child)]);
    assert(index_files(seq![child]) =~= Seq::empty()) by {
        assert(index_files(seq![child].drop_last()) =~= Seq::empty());
    }
    assert(index_files(seq![unlisted(child)]) =~= Seq::empty()) by {
        assert(index_files(seq![unlisted(child)].drop_last()) =~= Seq::empty());
    }
    assert(index_files(blocked) =~= index_files(children));

    lemma_indexes_below_concat(before + seq![child], after);
    lemma_indexes_below_concat(before, seq![child]);
    lemma_indexes_below_concat(before + seq![unlisted(child)], after);
    lemma_indexes_below_concat(before, seq![unlisted(child)]);
    assert(indexes_below(seq![child]) =~= indexes_of(child.path@, below)) by {
        assert(indexes_below(seq![child].drop_last()) =~= Seq::empty());
    }
    assert(indexes_below(seq![unlisted(child)]) =~= Seq::empty()) by {
        assert(indexes_below(seq![unlisted(child)].drop_last()) =~= Seq::empty());
    }
    assert(indexes_below(blocked) =~= indexes_below(before) + indexes_below(after));

    lemma_hashed_entries_concat(before + seq![child], after);
    lemma_hashed_entries_concat(before, seq![child]);
    lemma_hashed_entries_concat(before + seq![unlisted(child)], after);
    lemma_hashed_entries_concat(before, seq![unlisted(child)]);
    assert(hashed_below(child) == seq![child.entry()] + hashed_entries(below));
    assert(hashed_below(unlisted(child)) == seq![child.entry()]);
    assert(hashed_entries(seq![child]) =~= seq![child.entry()] + hashed_entries(below)) by {
        assert(hashed_entries(seq![child].drop_last()) =~= Seq::empty());
    }
    assert(hashed_entries(seq![unlisted(child)]) =~= seq![child.entry()]) by {
        assert(hashed_entries(seq![unlisted(child)].drop_last()) =~= Seq::empty());
    }
    assert(hashed_entries(children) =~= hashed_entries(before) + seq![child.entry()]
        + hashed_entries(below) + hashed_entries(after));
    assert(indexes_of(path, children) =~= seq![
        IndexView { path, root: built(index_files(children)) },
    ] + indexes_below(before) + indexes_of(child.path@, below) + indexes_below(after));
}

/// A child whose kind could not be read, or whose size could not, is left
/// out; all the others are indexed as if it were not there. This holds of a
/// directory of unknown size too, whatever is below it.
pub proof fn lemma_unread_child(path: Seq<char>, children: Seq<ChildRecord>, at: int)
    requires
        0 <= at < children.len(),
        children[at].kind is None || children[at].size is None,
    ensures
        indexes_of(path, children) == indexes_of(path, children.remove(at)),
        hashed_entries(children) == hashed_entries(children.remove(at)),
{
    let child = children[at];
    let before = children.take(at);
    let after = children.skip(at + 1);
    let one = seq![child];
    assert(children =~= before + one + after);
    assert(children.remove(at) =~= before + after);
    assert(one.drop_last() =~= Seq::empty());
    lemma_index_files_concat(before + one, after);
    lemma_index_files_concat(before, one);
    lemma_index_files_concat(before, after);
    assert(index_files(one) =~= Seq::empty()) by {
        assert(index_files(one.drop_last()) =~= Seq::empty());
    }
    assert(index_files(children) =~= index_files(children.remove(at)));
    lemma_indexes_below_concat(before + one, after);
    lemma_indexes_below_concat(before, one);
    lemma_indexes_below_concat(before, after);
    assert(indexes_below(one) =~= Seq::empty()) by {
        assert(indexes_below(one.drop_last()) =~= Seq::empty());
    }
    assert(indexes_below(children) =~= indexes_below(children.remove(at)));
    lemma_hashed_entries_concat(before + one, after);
    lemma_hashed_entries_concat(before, one);
    lemma_hashed_entries_concat(before, after);
    assert(hashed_below(child) =~= Seq::empty());
    assert(hashed_entries(one) =~= Seq::empty()) by {
        assert(hashed_entries(one.drop_last()) =~= Seq::empty());
    }
    assert(hashed_entries(children) =~= hashed_entries(children.remove(at)));
}

/// Builds the ordered index of a directory from its children: those that
/// are indexed are inserted in the order of the listing.
pub fn build_directory_index(children: &Vec<ChildRecord>) -> (root: Option<Box<AVLTreeNode>>)
    ensures
        root == built(index_files(children@)),
        well_formed(root),
        tree_entries(root) == inserted_all(index_entries(children@)),
{
    let mut root: Option<Box<AVLTreeNode>> = None;
    let mut i: usize = 0;
    assert(children@.take(0) =~= Seq::empty());
    while i < children.len()
        invariant
            i <= children.len(),
            root == built(index_files(children@.take(i as int))),
        decreases children.len() - i,
    {
        let child = &children[i];
        proof {
            let seen = children@.take(i as int);
            assert(children@.take(i + 1) =~= seen.push(*child));
            lemma_index_files_push(seen, *child);
            lemma_index_files_len(seen);
            lemma_built(index_files(seen));
            assert(index_files(seen).push(child.file()).drop_last() =~= index_files(seen));
        }
        if child.indexed() {
            root = Some(insert_into_avl_tree(root, child.to_entry()));
        }
        i += 1;
    }
    proof {
        assert(children@.take(i as int) =~= children@);
        lemma_index_files_len(children@);
        lemma_built(index_files(children@));
    }
    root
}

/// Appends to `avlvec` the ordered index of the directory `path` with the
/// given children, and then those of the directories below it, depth first.
///
/// A directory whose size is unknown or that could not be listed gets no
/// index, and nothing below it is looked at.
pub fn build_avl_tree(path: &str, children: &Vec<ChildRecord>, avlvec: &mut Vec<DirectoryIndex>)
    ensures
        index_views(final(avlvec)@) == index_views(old(avlvec)@) + indexes_of(path@, children@),
        final(avlvec)@.len() >= old(avlvec)@.len(),
        forall|k: int| 0 <= k < old(avlvec)@.len() ==> final(avlvec)@[k] == old(avlvec)@[k],
        forall|k: int|
            old(avlvec)@.len() <= k < final(avlvec)@.len() ==> well_formed(
                (#[trigger] final(avlvec)@[k]).root,
            ),
    decreases children,
{
    let ghost before = avlvec@;
    let root = build_directory_index(children);
    let own = DirectoryIndex { path: path.to_owned(), root };
    let ghost first = seq![own@];
    avlvec.push(own);
    let mut i: usize = 0;
    proof {
        assert(children@.take(0) =~= Seq::empty());
        assert(index_views(avlvec@) =~= index_views(before) + first + indexes_below(
            children@.take(0),
        ));
    }
    while i < children.len()
        invariant
            i <= children.len(),
            first == seq![IndexView { path: path@, root: built(index_files(children@)) }],
            index_views(avlvec@) == index_views(before) + first + indexes_below(
                children@.take(i as int),
            ),
            avlvec@.len() > before.len(),
            forall|k: int| 0 <= k < before.len() ==> avlvec@[k] == before[k],
            forall|k: int| before.len() <= k < avlvec@.len() ==> well_formed((#[trigger] avlvec@[k]).root),
        decreases children.len() - i,
    {
        let child = &children[i];
        let ghost seen = children@.take(i as int);
        let ghost so_far = index_views(avlvec@);
        proof {
            assert(children@.take(i + 1) =~= seen.push(*child));
            assert(seen.push(*child).drop_last() =~= seen);
        }
        if child.wants_listing() {
            match &child.children {
                Some(list) => {
                    build_avl_tree(child.path.as_str(), list, avlvec);
                    proof {
                        assert(index_views(avlvec@) =~= index_views(before) + first + (
                        indexes_below(seen) + indexes_of(child.path@, list@)));
                    }
                },
                None => {
                    proof {
                        assert(so_far =~= index_views(before) + first + (indexes_below(seen)
                            + Seq::<IndexView>::empty()));
                    }
                },
            }
        } else {
            proof {
                assert(so_far =~= index_views(before) + first + (indexes_below(seen)
                    + Seq::<IndexView>::empty()));
            }
        }
        i += 1;
    }
    proof {
        assert(children@.take(i as int) =~= children@);
        assert(index_views(avlvec@) =~= index_views(before) + indexes_of(path@, children@));
    }
}

/// Puts into `hash_table` every directory below a directory with the given
/// children whose size is known, depth first, and returns the table.
///
/// Nothing below a directory whose size is unknown or that could not be
/// listed is looked at.
pub fn build_hash_table(children: &Vec<ChildRecord>, hash_table: HashTable) -> (table: HashTable)
    requires
        hash_table@.len() > 0,
    ensures
        table@ == table_with_all(hash_table@, hashed_entries(children@)),
        table@.len() == hash_table@.len(),
    decreases children,
{
    let ghost start = hash_table@;
    let mut table = hash_table;
    let mut i: usize = 0;
    assert(children@.take(0) =~= Seq::empty());
    while i < children.len()
        invariant
            i <= children.len(),
            start.len() > 0,
            table@.len() == start.len(),
            table@ == table_with_all(start, hashed_entries(children@.take(i as int))),
        decreases children.len() - i,
    {
        let child = &children[i];
        let ghost seen = hashed_entries(children@.take(i as int));
        proof {
            assert(children@.take(i + 1) =~= children@.take(i as int).push(*child));
            assert(children@.take(i as int).push(*child).drop_last() =~= children@.take(i as int));
            assert(seen + Seq::<EntryView>::empty() =~= seen);
            assert(hashed_entries(children@.take(i + 1)) == seen + hashed_below(*child));
            assert(hashed_below(*child) == if !child.is_hashed() {
                Seq::empty()
            } else {
                match child.children {
                    Some(list) => seq![child.entry()] + hashed_entries(list@),
                    None => seq![child.entry()],
                }
            });
        }
        if child.wants_listing() {
            table.insert(child.to_entry());
            proof {
                let one = seq![child.entry()];
                assert(one.drop_last() =~= Seq::empty());
                assert(table_with_all(table_with_all(start, seen), one.drop_last())
                    == table_with_all(start, seen));
                assert(table_with_all(table_with_all(start, seen), one) == table@);
                lemma_table_with_all_concat(start, seen, one);
            }
            match &child.children {
                Some(list) => {
                    table = build_hash_table(list, table);
                    proof {
                        lemma_table_with_all_concat(
                            start,
                            seen + seq![child.entry()],
                            hashed_entries(list@),
                        );
                        assert(seen + seq![child.entry()] + hashed_entries(list@) =~= seen + (
                        seq![child.entry()] + hashed_entries(list@)));
                    }
                },
                None => {},
            }
        }
        i += 1;
    }
    assert(children@.take(i as int) =~= children@);
    table
}

/// Indexes the subtree of the directory `path`, of which `listing` holds the
/// children, or `None` if the directory could not be listed. Returns the
/// ordered indexes, that of `path` first, and the directory hash index with
/// `bucket_count` buckets.
pub fn walk(path: &str, listing: &Option<Vec<ChildRecord>>, bucket_count: usize) -> (result: (
    Vec<DirectoryIndex>,
    HashTable,
))
    requires
        bucket_count > 0,
    ensures
        forall|k: int| 0 <= k < result.0@.len() ==> well_formed((#[trigger] result.0@[k]).root),
        result.1@.len() == bucket_count,
        match *listing {
            Some(children) => {
                &&& index_views(result.0@) == indexes_of(path@, children@)
                &&& result.1@ == table_with_all(
                    empty_table(bucket_count as nat),
                    hashed_entries(children@),
                )
            },
            None => {
                &&& result.0@.len() == 0
                &&& result.1@ == empty_table(bucket_count as nat)
            },
        },
{
    let mut indexes: Vec<DirectoryIndex> = Vec::new();
    let table = HashTable::new(bucket_count);
    match listing {
        Some(children) => {
            build_avl_tree(path, children, &mut indexes);
            let table = build_hash_table(children, table);
            proof {
                assert(index_views(Seq::<DirectoryIndex>::empty()) =~= Seq::<IndexView>::empty());
                assert(Seq::<IndexView>::empty() + indexes_of(path@, children@) =~= indexes_of(
                    path@,
                    children@,
                ));
            }
            (indexes, table)
        },
        None => (indexes, table),
    }
}

/// Looks in the given indexes, one after the other, for an entry whose path
/// is `path`, and returns the first one.
pub fn lookup_path(indexes: &Vec<DirectoryIndex>, path: &str) -> (found: Option<FileMetadata>)
    ensures
        match found {
            Some(entry) => first_with_path(indexed_entries(index_views(indexes@)), path@) == Some(
                entry@,
            ),
            None => first_with_path(indexed_entries(index_views(indexes@)), path@) is None,
        },
{
    let ghost views = index_views(indexes@);
    let mut i: usize = 0;
    assert(views.take(0) =~= Seq::empty());
    while i < indexes.len()
        invariant
            i <= indexes.len(),
            views == index_views(indexes@),
            first_with_path(indexed_entries(views.take(i as int)), path@) is None,
        decreases indexes.len() - i,
    {
        let found = search_avl_tree(&indexes[i].root, path);
        proof {
            assert(views.take(i + 1).drop_last() =~= views.take(i as int));
            assert(views.take(i + 1).last() == indexes@[i as int]@);
            lemma_first_with_path_concat(
                indexed_entries(views.take(i as int)),
                tree_entries(indexes@[i as int].root),
                path@,
            );
        }
        if found.is_some() {
            proof {
                lemma_indexed_entries_concat(views.take(i + 1), views.skip(i + 1));
                assert(views.take(i + 1) + views.skip(i + 1) =~= views);
                lemma_first_with_path_concat(
                    indexed_entries(views.take(i + 1)),
                    indexed_entries(views.skip(i + 1)),
                    path@,
                );
            }
            return found;
        }
        i += 1;
    }
    assert(views.take(i as int) =~= views);
    None
}

/// Returns every entry of the given indexes whose name is `name`, index
/// after index, each in ascending order.
pub fn lookup_name(indexes: &Vec<DirectoryIndex>, name: &str) -> (found: Vec<FileMetadata>)
    ensures
        entry_views(found@) == with_name(indexed_entries(index_views(indexes@)), name@),
{
    let ghost views = index_views(indexes@);
    let mut found: Vec<FileMetadata> = Vec::new();
    let mut i: usize = 0;
    assert(views.take(0) =~= Seq::empty());
    assert(entry_views(found@) =~= Seq::empty());
    while i < indexes.len()
        invariant
            i <= indexes.len(),
            views == index_views(indexes@),
            entry_views(found@) == with_name(indexed_entries(views.take(i as int)), name@),
        decreases indexes.len() - i,
    {
        collect_by_name(&indexes[i].root, name, &mut found);
        proof {
            assert(views.take(i + 1).drop_last() =~= views.take(i as int));
            assert(views.take(i + 1).last() == indexes@[i as int]@);
            lemma_selected_concat(
                indexed_entries(views.take(i as int)),
                tree_entries(indexes@[i as int].root),
                SearchKey::Name,
                name@,
            );
        }
        i += 1;
    }
    assert(views.take(i as int) =~= views);
    found
}

/// The entries of indexes in two parts are those of the first part followed
/// by those of the second.
pub proof fn lemma_indexed_entries_concat(a: Seq<IndexView>, b: Seq<IndexView>)
    ensures
        indexed_entries(a + b) == indexed_entries(a) + indexed_entries(b),
    decreases b.len(),
{
    if b.len() == 0 {
        assert(a + b =~= a);
        assert(indexed_entries(a) + indexed_entries(b) =~= indexed_entries(a));
    } else {
        assert((a + b).drop_last() =~= a + b.drop_last());
        lemma_indexed_entries_concat(a, b.drop_last());
        assert(indexed_entries(a + b) =~= indexed_entries(a) + indexed_entries(b));
    }
}

} // verus!
