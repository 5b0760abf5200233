//! Queries on an ordered index: by path and by name.
//!
//! The index is ordered by name, and the order of paths need not agree with
//! it. Both queries therefore walk the whole tree in in-order.

use vstd::prelude::*;
use crate::avl::{insert_by_name, lemma_rank_of_bounds, tree_entries, AVLTreeNode};
use crate::entry::{entry_views, EntryView, FileMetadata};
use crate::names::same_text;

verus! {

/// The first entry of `s` whose path is `path`, if there is one.
pub open spec fn first_with_path(s: Seq<EntryView>, path: Seq<char>) -> Option<EntryView>
    decreases s.len(),
{
    if s.len() == 0 {
        None
    } else if s[0].path == path {
        Some(s[0])
    } else {
        first_with_path(s.drop_first(), path)
    }
}

/// The text by which a query selects entries: their name or their path.
#[derive(Clone, Copy, Debug, PartialEq, Eq, Structural)]
pub enum SearchKey {
    Name,
    Path,
}

/// The text of `entry` that a query by `key` looks at.
pub open spec fn key_of(entry: EntryView, key: SearchKey) -> Seq<char> {
    match key {
        SearchKey::Name => entry.name,
        SearchKey::Path => entry.path,
    }
}

/// The entries of `s` whose name, or path, is `text`, in the order in which
/// they stand in `s`.
pub open spec fn selected(s: Seq<EntryView>, key: SearchKey, text: Seq<char>) -> Seq<EntryView>
    decreases s.len(),
{
    if s.len() == 0 {
        Seq::empty()
    } else if key_of(s.last(), key) == text {
        selected(s.drop_last(), key, text).push(s.last())
    } else {
        selected(s.drop_last(), key, text)
    }
}

/// The entries of `s` whose name is `name`, in the order in which they stand
/// in `s`.
pub open spec fn with_name(s: Seq<EntryView>, name: Seq<char>) -> Seq<EntryView> {
    selected(s, SearchKey::Name, name)
}

/// The entries of `s` whose path is `path`, in the order in which they stand
/// in `s`.
pub open spec fn with_path(s: Seq<EntryView>, path: Seq<char>) -> Seq<EntryView> {
    selected(s, SearchKey::Path, path)
}

/// The first entry with a given path in a concatenation is the first one in
/// its first part, or else the first one in its second part.
pub proof fn lemma_first_with_path_concat(a: Seq<EntryView>, b: Seq<EntryView>, path: Seq<char>)
    ensures
        first_with_path(a + b, path) == if first_with_path(a, path) is Some {
            first_with_path(a, path)
        } else {
            first_with_path(b, path)
        },
    decreases a.len(),
{
    if a.len() == 0 {
        assert(a + b =~= b);
    } else {
        assert((a + b).drop_first() =~= a.drop_first() + b);
        lemma_first_with_path_concat(a.drop_first(), b, path);
    }
}

/// Selecting from a sequence with one more entry at its end selects that
/// entry last, if it has the text, and otherwise changes nothing.
pub proof fn lemma_selected_push(s: Seq<EntryView>, entry: EntryView, key: SearchKey, text: Seq<char>)
    ensures
        selected(s.push(entry), key, text) == if key_of(entry, key) == text {
            selected(s, key, text).push(entry)
        } else {
            selected(s, key, text)
        },
{
    assert(s.push(entry).drop_last() =~= s);
}

/// Searching a sequence of one entry tests that entry.
pub proof fn lemma_search_single(entry: EntryView, key: SearchKey, text: Seq<char>)
    ensures
        first_with_path(seq![entry], text) == if entry.path == text {
            Some(entry)
        } else {
            None
        },
        selected(seq![entry], key, text) == if key_of(entry, key) == text {
            seq![entry]
        } else {
            Seq::empty()
        },
{
    let one = seq![entry];
    assert(one.drop_first() =~= Seq::empty());
    assert(one.drop_last() =~= Seq::empty());
    assert(first_with_path(one.drop_first(), text) is None);
    assert(selected(one.drop_last(), key, text) =~= Seq::empty());
    assert(selected(one, key, text) =~= if key_of(entry, key) == text {
        seq![entry]
    } else {
        Seq::empty()
    });
}

/// The entries selected from a concatenation are those selected from its
/// first part followed by those selected from its second part.
pub proof fn lemma_selected_concat(
    a: Seq<EntryView>,
    b: Seq<EntryView>,
    key: SearchKey,
    text: Seq<char>,
)
    ensures
        selected(a + b, key, text) == selected(a, key, text) + selected(b, key, text),
    decreases b.len(),
{
    if b.len() == 0 {
        assert(a + b =~= a);
        assert(selected(a, key, text) + selected(b, key, text) =~= selected(a, key, text));
    } else {
        assert((a + b).drop_last() =~= a + b.drop_last());
        lemma_selected_concat(a, b.drop_last(), key, text);
        assert(selected(a + b, key, text) =~= selected(a, key, text) + selected(b, key, text));
    }
}

/// A query returns entries with the text that it asks for only, and all of
/// them.
pub proof fn lemma_selected(s: Seq<EntryView>, key: SearchKey, text: Seq<char>)
    ensures
        forall|i: int|
            0 <= i < selected(s, key, text).len() ==> key_of(
                #[trigger] selected(s, key, text)[i],
                key,
            ) == text && s.contains(selected(s, key, text)[i]),
        forall|i: int|
            0 <= i < s.len() && key_of(#[trigger] s[i], key) == text ==> selected(
                s,
                key,
                text,
            ).contains(s[i]),
        selected(s, key, text).len() <= s.len(),
    decreases s.len(),
{
    if s.len() > 0 {
        let front = s.drop_last();
        let found = selected(s, key, text);
        let before = selected(front, key, text);
        lemma_selected(front, key, text);
        assert forall|i: int| 0 <= i < found.len() implies key_of(#[trigger] found[i], key) == text
            && s.contains(found[i]) by {
            if i < before.len() {
                let e = before[i];
                assert(front.contains(e));
                let k = choose|k: int| 0 <= k < front.len() && front[k] == e;
                assert(s[k] == e);
            } else {
                assert(s[s.len() - 1] == found[i]);
            }
        }
        assert forall|i: int| 0 <= i < s.len() && key_of(#[trigger] s[i], key) == text implies found.contains(
            s[i],
        ) by {
            if i < front.len() {
                assert(front[i] == s[i]);
                let k = choose|k: int| 0 <= k < before.len() && before[k] == s[i];
                assert(found[k] == s[i]);
            } else {
                assert(found[found.len() - 1] == s[i]);
            }
        }
    }
}

/// A search by path finds nothing exactly when no entry has the path. What
/// it finds has the path, stands in the sequence, and no entry before it has
/// the path.
pub proof fn lemma_first_with_path(s: Seq<EntryView>, path: Seq<char>)
    ensures
        first_with_path(s, path) is None <==> forall|i: int|
            0 <= i < s.len() ==> (#[trigger] s[i]).path != path,
        first_with_path(s, path) is Some ==> exists|i: int|
            0 <= i < s.len() && #[trigger] s[i] == first_with_path(s, path)->0 && s[i].path == path
                && forall|j: int| 0 <= j < i ==> (#[trigger] s[j]).path != path,
    decreases s.len(),
{
    if s.len() > 0 {
        let rest = s.drop_first();
        lemma_first_with_path(rest, path);
        assert(forall|i: int| 0 <= i < rest.len() ==> rest[i] == s[i + 1]);
        if s[0].path == path {
            assert(s[0] == first_with_path(s, path)->0);
        } else {
            if first_with_path(s, path) is Some {
                let k = choose|i: int|
                    0 <= i < rest.len() && #[trigger] rest[i] == first_with_path(rest, path)->0
                        && rest[i].path == path && forall|j: int|
                        0 <= j < i ==> (#[trigger] rest[j]).path != path;
                assert(s[k + 1] == first_with_path(s, path)->0);
                assert forall|j: int| 0 <= j < k + 1 implies (#[trigger] s[j]).path != path by {
                    if j > 0 {
                        assert(rest[j - 1] == s[j]);
                    }
                }
            } else {
                assert forall|i: int| 0 <= i < s.len() implies (#[trigger] s[i]).path != path by {
                    if i > 0 {
                        assert(rest[i - 1] == s[i]);
                    }
                }
            }
            if forall|i: int| 0 <= i < s.len() ==> (#[trigger] s[i]).path != path {
                assert forall|i: int| 0 <= i < rest.len() implies (#[trigger] rest[i]).path
                    != path by {
                    assert(rest[i] == s[i + 1]);
                }
            }
        }
    }
}

/// An entry that has been put into an index is found there: a search for its
/// path finds an entry with that path, and the entry itself where no other
/// entry of the index has the path. A search for its name returns it. What
/// a search by path found before, it still finds something for.
pub proof fn lemma_inserted_is_found(s: Seq<EntryView>, entry: EntryView, path: Seq<char>)
    ensures
        first_with_path(insert_by_name(s, entry), entry.path) is Some,
        first_with_path(insert_by_name(s, entry), entry.path)->0.path == entry.path,
        (forall|i: int| 0 <= i < s.len() ==> (#[trigger] s[i]).path != entry.path)
            ==> first_with_path(insert_by_name(s, entry), entry.path) == Some(entry),
        with_name(insert_by_name(s, entry), entry.name).contains(entry),
        first_with_path(s, path) is Some ==> first_with_path(insert_by_name(s, entry), path)
            is Some,
{
    lemma_rank_of_bounds(s, entry.name);
    let k = crate::avl::rank_of(s, entry.name) as int;
    let t = insert_by_name(s, entry);
    assert(t[k] == entry);
    assert forall|i: int| 0 <= i < t.len() && i != k implies exists|j: int|
        0 <= j < s.len() && s[j] == #[trigger] t[i] by {
        if i < k {
            assert(s[i] == t[i]);
        } else {
            assert(s[i - 1] == t[i]);
        }
    }
    lemma_first_with_path(t, entry.path);
    lemma_selected(t, SearchKey::Name, entry.name);
    if first_with_path(s, path) is Some {
        lemma_first_with_path(s, path);
        lemma_first_with_path(t, path);
        let j = choose|j: int|
            0 <= j < s.len() && #[trigger] s[j] == first_with_path(s, path)->0 && s[j].path == path;
        if j < k {
            assert(t[j] == s[j]);
        } else {
            assert(t[j + 1] == s[j]);
        }
    }
}

/// Looks in the tree `root` for an entry whose path is `file_path`.
///
/// The entries are visited in in-order, and the first one with the path is
/// returned. Where none has it, the result is `None`.
pub fn search_avl_tree(root: &Option<Box<AVLTreeNode>>, file_path: &str) -> (found: Option<
    FileMetadata,
>)
    ensures
        match found {
            Some(entry) => first_with_path(tree_entries(*root), file_path@) == Some(entry@),
            None => first_with_path(tree_entries(*root), file_path@) is None,
        },
    decreases *root,
{
    match root {
        None => {
            assert(tree_entries(*root) =~= Seq::empty());
            None
        },
        Some(node) => {
            proof {
                let low = tree_entries(node.left);
                let here = seq![node.file@];
                lemma_first_with_path_concat(low + here, tree_entries(node.right), file_path@);
                lemma_first_with_path_concat(low, here, file_path@);
                lemma_search_single(node.file@, SearchKey::Path, file_path@);
            }
            let below = search_avl_tree(&node.left, file_path);
            if below.is_some() {
                below
            } else if same_text(&node.file.path, file_path) {
                Some(node.file.clone())
            } else {
                search_avl_tree(&node.right, file_path)
            }
        },
    }
}

/// Appends to `out` the entries of the tree `root` in in-order.
pub fn collect_in_order(root: &Option<Box<AVLTreeNode>>, out: &mut Vec<FileMetadata>)
    ensures
        entry_views(final(out)@) == entry_views(old(out)@) + tree_entries(*root),
    decreases *root,
{
    let ghost start = entry_views(out@);
    match root {
        None => {
            proof {
                assert(tree_entries(*root) =~= Seq::empty());
                assert(start + Seq::<EntryView>::empty() =~= start);
            }
        },
        Some(node) => {
            collect_in_order(&node.left, out);
            let ghost middle = out@;
            out.push(node.file.clone());
            proof {
                assert(entry_views(out@) =~= entry_views(middle).push(node.file@));
            }
            collect_in_order(&node.right, out);
            proof {
                assert(entry_views(out@) =~= start + (tree_entries(node.left) + seq![node.file@]
                    + tree_entries(node.right)));
            }
        },
    }
}

/// Returns the entries of the tree `root` in in-order: in ascending order of
/// their names where the tree is well-formed.
pub fn in_order(root: &Option<Box<AVLTreeNode>>) -> (entries: Vec<FileMetadata>)
    ensures
        entry_views(entries@) == tree_entries(*root),
{
    let mut entries: Vec<FileMetadata> = Vec::new();
    collect_in_order(root, &mut entries);
    assert(entry_views(Seq::<FileMetadata>::empty()) =~= Seq::<EntryView>::empty());
    assert(Seq::<EntryView>::empty() + tree_entries(*root) =~= tree_entries(*root));
    entries
}

/// Appends to `out` the entries of the tree `root` whose name is
/// `file_name`, in in-order.
pub fn collect_by_name(
    root: &Option<Box<AVLTreeNode>>,
    file_name: &str,
    out: &mut Vec<FileMetadata>,
)
    ensures
        entry_views(final(out)@) == entry_views(old(out)@) + with_name(
            tree_entries(*root),
            file_name@,
        ),
    decreases *root,
{
    let ghost start = entry_views(out@);
    match root {
        None => {
            proof {
                assert(tree_entries(*root) =~= Seq::empty());
                assert(start + Seq::<EntryView>::empty() =~= start);
            }
        },
        Some(node) => {
            let ghost low = with_name(tree_entries(node.left), file_name@);
            let ghost here = with_name(seq![node.file@], file_name@);
            let ghost high = with_name(tree_entries(node.right), file_name@);
            proof {
                lemma_selected_concat(
                    tree_entries(node.left) + seq![node.file@],
                    tree_entries(node.right),
                    SearchKey::Name,
                    file_name@,
                );
                lemma_selected_concat(
                    tree_entries(node.left),
                    seq![node.file@],
                    SearchKey::Name,
                    file_name@,
                );
                lemma_search_single(node.file@, SearchKey::Name, file_name@);
            }
            collect_by_name(&node.left, file_name, out);
            let ghost middle = out@;
            if same_text(&node.file.name, file_name) {
                out.push(node.file.clone());
                proof {
                    assert(entry_views(out@) =~= entry_views(middle).push(node.file@));
                }
            }
            proof {
                assert(entry_views(out@) =~= start + low + here);
            }
            collect_by_name(&node.right, file_name, out);
            proof {
                assert(entry_views(out@) =~= start + (low + here + high));
            }
        },
    }
}

/// Returns every entry of the tree `root` whose name is `file_name`, in
/// ascending order of the tree. Names are not unique, so there may be several.
pub fn search_avl_by_name(root: &Option<Box<AVLTreeNode>>, file_name: &str) -> (found: Vec<
    FileMetadata,
>)
    ensures
        entry_views(found@) == with_name(tree_entries(*root), file_name@),
{
    let mut found: Vec<FileMetadata> = Vec::new();
    collect_by_name(root, file_name, &mut found);
    assert(entry_views(Seq::<FileMetadata>::empty()) =~= Seq::<EntryView>::empty());
    assert(Seq::<EntryView>::empty() + with_name(tree_entries(*root), file_name@) =~= with_name(
        tree_entries(*root),
        file_name@,
    ));
    found
}

} // verus!
