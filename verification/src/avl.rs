//! The ordered index of one directory: a height-balanced binary search tree
//! of entries, ordered by name.
//!
//! Entries with equal names are all kept; among them, the one inserted
//! earlier comes first in the in-order traversal.

use vstd::prelude::*;
use crate::entry::{entry_views, EntryView, FileMetadata};
use crate::names::{
    lemma_bytes_less_asymmetric, lemma_bytes_less_then_not_above, lemma_bytes_not_above_transitive,
    name_less, name_precedes,
};
use vstd::arithmetic::power2::{lemma2_to64, lemma_pow2_unfold, pow2};
use vstd::utf8::encode_utf8;

verus! {

/// A node of the tree. It owns its two subtrees.
#[derive(Debug)]
pub struct AVLTreeNode {
    pub file: FileMetadata,
    pub left: Option<Box<AVLTreeNode>>,
    pub right: Option<Box<AVLTreeNode>>,
    pub height: i32,
}

/// The larger of two integers.
pub open spec fn larger(a: int, b: int) -> int {
    if a >= b {
        a
    } else {
        b
    }
}

/// The height that the root of `tree` records; 0 for the empty tree.
pub open spec fn recorded_height(tree: Option<Box<AVLTreeNode>>) -> int {
    match tree {
        None => 0,
        Some(node) => node.height as int,
    }
}

/// The number of nodes on the longest path from the root of `tree` down to a
/// leaf; 0 for the empty tree.
pub open spec fn tree_height(tree: Option<Box<AVLTreeNode>>) -> int
    decreases tree,
{
    match tree {
        None => 0,
        Some(node) => 1 + larger(tree_height(node.left), tree_height(node.right)),
    }
}

/// The entries of `tree` in in-order: left subtree, root, right subtree.
pub open spec fn tree_entries(tree: Option<Box<AVLTreeNode>>) -> Seq<EntryView>
    decreases tree,
{
    match tree {
        None => Seq::empty(),
        Some(node) => tree_entries(node.left) + seq![node.file@] + tree_entries(node.right),
    }
}

/// Every node of `tree` records its true height.
pub open spec fn heights_recorded(tree: Option<Box<AVLTreeNode>>) -> bool
    decreases tree,
{
    match tree {
        None => true,
        Some(node) => {
            &&& node.height == tree_height(tree)
            &&& heights_recorded(node.left)
            &&& heights_recorded(node.right)
        },
    }
}

/// At every node of `tree`, the heights of the two subtrees differ by at
/// most one.
pub open spec fn balanced(tree: Option<Box<AVLTreeNode>>) -> bool
    decreases tree,
{
    match tree {
        None => true,
        Some(node) => {
            &&& balanced(node.left)
            &&& balanced(node.right)
            &&& -1 <= tree_height(node.left) - tree_height(node.right) <= 1
        },
    }
}

/// No entry of `s` has a name that is ordered before the name of an entry
/// that precedes it.
pub open spec fn sorted_by_name(s: Seq<EntryView>) -> bool {
    forall|i: int, j: int|
        #![trigger s[i], s[j]]
        0 <= i < j < s.len() ==> !name_less(s[j].name, s[i].name)
}

/// The number of entries of `s` whose name is not ordered after `name`.
pub open spec fn rank_of(s: Seq<EntryView>, name: Seq<char>) -> nat
    decreases s.len(),
{
    if s.len() == 0 {
        0
    } else {
        rank_of(s.drop_last(), name) + if name_less(name, s.last().name) {
            0nat
        } else {
            1nat
        }
    }
}

/// `s` with `entry` put in by name: behind every entry whose name is not
/// ordered after its own, those of the same name included, and before the
/// others. This is where it belongs in the sorted sequence `s`.
pub open spec fn insert_by_name(s: Seq<EntryView>, entry: EntryView) -> Seq<EntryView> {
    s.insert(rank_of(s, entry.name) as int, entry)
}

/// The in-order traversal of the index into which `entries` were inserted one
/// after the other.
pub open spec fn inserted_all(entries: Seq<EntryView>) -> Seq<EntryView>
    decreases entries.len(),
{
    if entries.len() == 0 {
        Seq::empty()
    } else {
        insert_by_name(inserted_all(entries.drop_last()), entries.last())
    }
}

/// The tree into which `files` were inserted one after the other, starting
/// from the empty tree.
pub open spec fn built(files: Seq<FileMetadata>) -> Option<Box<AVLTreeNode>>
    decreases files.len(),
{
    if files.len() == 0 {
        None
    } else {
        Some(Box::new(inserted(built(files.drop_last()), files.last())))
    }
}

/// The invariant of an ordered index: true heights are recorded, the tree is
/// balanced, and its in-order traversal is sorted by name.
pub open spec fn well_formed(tree: Option<Box<AVLTreeNode>>) -> bool {
    &&& heights_recorded(tree)
    &&& balanced(tree)
    &&& sorted_by_name(tree_entries(tree))
}

/// The least number of nodes that a balanced tree of the given height has.
pub open spec fn least_size(height: nat) -> nat
    decreases height,
{
    if height == 0 {
        0
    } else if height == 1 {
        1
    } else {
        1 + least_size((height - 1) as nat) + least_size((height - 2) as nat)
    }
}

/// The node that holds `file` above `left` and `right` and records one more
/// than the larger of the heights that they record.
pub open spec fn joined(
    file: FileMetadata,
    left: Option<Box<AVLTreeNode>>,
    right: Option<Box<AVLTreeNode>>,
) -> AVLTreeNode {
    AVLTreeNode {
        file,
        left,
        right,
        height: (1 + larger(recorded_height(left), recorded_height(right))) as i32,
    }
}

/// `node` after a left rotation: its right child becomes the root, `node`
/// becomes that root's left child and takes over the root's former left
/// subtree as its right subtree.
pub open spec fn rotated_left(node: AVLTreeNode) -> AVLTreeNode
    recommends
        node.right is Some,
{
    let pivot = node.right->0;
    joined(pivot.file, Some(Box::new(joined(node.file, node.left, pivot.left))), pivot.right)
}

/// `node` after a right rotation, the mirror image of [`rotated_left`].
pub open spec fn rotated_right(node: AVLTreeNode) -> AVLTreeNode
    recommends
        node.left is Some,
{
    let pivot = node.left->0;
    joined(pivot.file, pivot.left, Some(Box::new(joined(node.file, pivot.right, node.right))))
}

/// The tree that results from inserting `file` into `tree`: `file` becomes a
/// new leaf, reached from the root by going left where its name is ordered
/// before the name at a node and right otherwise, and every node on that path
/// is rebalanced on the way back.
pub open spec fn inserted(tree: Option<Box<AVLTreeNode>>, file: FileMetadata) -> AVLTreeNode
    decreases tree,
{
    match tree {
        None => AVLTreeNode { file, left: None, right: None, height: 1 },
        Some(node) => if name_less(file.name@, node.file.name@) {
            rebalanced(
                AVLTreeNode {
                    file: node.file,
                    left: Some(Box::new(inserted(node.left, file))),
                    right: node.right,
                    height: node.height,
                },
            )
        } else {
            rebalanced(
                AVLTreeNode {
                    file: node.file,
                    left: node.left,
                    right: Some(Box::new(inserted(node.right, file))),
                    height: node.height,
                },
            )
        },
    }
}

/// `node` after rebalancing. The height of `node` is recorded anew. Where the
/// left subtree then records a height that exceeds that of the right subtree
/// by more than one, the node is rotated to the right, after a left rotation
/// of its left child if that child's right subtree records the greater
/// height. Where the right subtree exceeds the left one, the mirror image is
/// done.
#[verifier::opaque]
pub open spec fn rebalanced(node: AVLTreeNode) -> AVLTreeNode {
    let lean = recorded_height(node.left) - recorded_height(node.right);
    if lean > 1 {
        let left = node.left->0;
        if recorded_height(left.left) >= recorded_height(left.right) {
            rotated_right(node)
        } else {
            rotated_right(
                joined(node.file, Some(Box::new(rotated_left(*left))), node.right),
            )
        }
    } else if lean < -1 {
        let right = node.right->0;
        if recorded_height(right.right) >= recorded_height(right.left) {
            rotated_left(node)
        } else {
            rotated_left(
                joined(node.file, node.left, Some(Box::new(rotated_right(*right)))),
            )
        }
    } else {
        joined(node.file, node.left, node.right)
    }
}

/// In a tree that records true heights, the root records the height of the
/// whole tree, and only the empty tree has height 0.
pub proof fn lemma_recorded_height(tree: Option<Box<AVLTreeNode>>)
    requires
        heights_recorded(tree),
    ensures
        recorded_height(tree) == tree_height(tree),
        0 <= tree_height(tree) <= i32::MAX,
        tree is Some <==> tree_height(tree) > 0,
{
    lemma_height_not_negative(tree);
}

/// No tree has a negative height.
pub proof fn lemma_height_not_negative(tree: Option<Box<AVLTreeNode>>)
    ensures
        0 <= tree_height(tree),
        tree is Some <==> tree_height(tree) > 0,
    decreases tree,
{
    if let Some(node) = tree {
        lemma_height_not_negative(node.left);
        lemma_height_not_negative(node.right);
    }
}

/// What holds of a node that is put above two subtrees that record their
/// true heights.
pub proof fn lemma_joined(
    file: FileMetadata,
    left: Option<Box<AVLTreeNode>>,
    right: Option<Box<AVLTreeNode>>,
)
    requires
        heights_recorded(left),
        heights_recorded(right),
        tree_height(left) < i32::MAX,
        tree_height(right) < i32::MAX,
    ensures
        heights_recorded(Some(Box::new(joined(file, left, right)))),
        tree_height(Some(Box::new(joined(file, left, right)))) == 1 + larger(
            tree_height(left),
            tree_height(right),
        ),
        balanced(Some(Box::new(joined(file, left, right)))) <==> {
            &&& balanced(left)
            &&& balanced(right)
            &&& -1 <= tree_height(left) - tree_height(right) <= 1
        },
        tree_entries(Some(Box::new(joined(file, left, right)))) == tree_entries(left)
            + seq![file@] + tree_entries(right),
{
    lemma_recorded_height(left);
    lemma_recorded_height(right);
}

/// A rotation changes the shape of a tree and not its in-order traversal.
pub proof fn lemma_rotations_keep_entries(node: AVLTreeNode)
    ensures
        node.right is Some ==> tree_entries(Some(Box::new(rotated_left(node)))) == tree_entries(
            Some(Box::new(node)),
        ),
        node.left is Some ==> tree_entries(Some(Box::new(rotated_right(node)))) == tree_entries(
            Some(Box::new(node)),
        ),
{
    if node.right is Some {
        let pivot = node.right->0;
        let inner = Some(Box::new(joined(node.file, node.left, pivot.left)));
        assert(tree_entries(inner) == tree_entries(node.left) + seq![node.file@] + tree_entries(
            pivot.left,
        ));
        assert(tree_entries(node.right) == tree_entries(pivot.left) + seq![pivot.file@]
            + tree_entries(pivot.right));
        assert(tree_entries(Some(Box::new(rotated_left(node)))) =~= tree_entries(
            Some(Box::new(node)),
        ));
    }
    if node.left is Some {
        let pivot = node.left->0;
        let inner = Some(Box::new(joined(node.file, pivot.right, node.right)));
        assert(tree_entries(inner) == tree_entries(pivot.right) + seq![node.file@] + tree_entries(
            node.right,
        ));
        assert(tree_entries(node.left) == tree_entries(pivot.left) + seq![pivot.file@]
            + tree_entries(pivot.right));
        assert(tree_entries(Some(Box::new(rotated_right(node)))) =~= tree_entries(
            Some(Box::new(node)),
        ));
    }
}

/// Rebalancing keeps the in-order traversal, records true heights, changes
/// the height by at most one level, and makes a node balanced whose subtrees
/// are balanced and differ in height by at most two.
pub proof fn lemma_rebalanced(node: AVLTreeNode)
    requires
        heights_recorded(node.left),
        heights_recorded(node.right),
        tree_height(node.left) < i32::MAX,
        tree_height(node.right) < i32::MAX,
    ensures
        tree_entries(Some(Box::new(rebalanced(node)))) == tree_entries(Some(Box::new(node))),
        heights_recorded(Some(Box::new(rebalanced(node)))),
        larger(tree_height(node.left), tree_height(node.right)) <= tree_height(
            Some(Box::new(rebalanced(node))),
        ) <= 1 + larger(tree_height(node.left), tree_height(node.right)),
        -1 <= tree_height(node.left) - tree_height(node.right) <= 1 ==> tree_height(
            Some(Box::new(rebalanced(node))),
        ) == 1 + larger(tree_height(node.left), tree_height(node.right)),
        balanced(node.left) && balanced(node.right) && -2 <= tree_height(node.left)
            - tree_height(node.right) <= 2 ==> balanced(Some(Box::new(rebalanced(node)))),
{
    reveal(rebalanced);
    lemma_recorded_height(node.left);
    lemma_recorded_height(node.right);
    lemma_joined(node.file, node.left, node.right);
    let lean = recorded_height(node.left) - recorded_height(node.right);
    if lean > 1 {
        let left = *(node.left->0);
        assert(node.left == Some(Box::new(left)));
        assert(balanced(node.left) ==> balanced(left.left) && balanced(left.right) && -1
            <= tree_height(left.left) - tree_height(left.right) <= 1);
        lemma_recorded_height(left.left);
        lemma_recorded_height(left.right);
        if recorded_height(left.left) >= recorded_height(left.right) {
            lemma_rotations_keep_entries(node);
            lemma_joined(node.file, left.right, node.right);
            lemma_joined(
                left.file,
                left.left,
                Some(Box::new(joined(node.file, left.right, node.right))),
            );
        } else {
            let pivot = *(left.right->0);
            assert(left.right == Some(Box::new(pivot)));
            assert(heights_recorded(left.right));
            assert(balanced(left.right) ==> balanced(pivot.left) && balanced(pivot.right) && -1
                <= tree_height(pivot.left) - tree_height(pivot.right) <= 1);
            lemma_recorded_height(pivot.left);
            lemma_recorded_height(pivot.right);
            lemma_rotations_keep_entries(left);
            lemma_joined(left.file, left.left, pivot.left);
            let low = Some(Box::new(joined(left.file, left.left, pivot.left)));
            lemma_joined(pivot.file, low, pivot.right);
            let mid = joined(node.file, Some(Box::new(rotated_left(left))), node.right);
            lemma_rotations_keep_entries(mid);
            lemma_joined(node.file, Some(Box::new(rotated_left(left))), node.right);
            lemma_joined(node.file, pivot.right, node.right);
            lemma_joined(
                pivot.file,
                low,
                Some(Box::new(joined(node.file, pivot.right, node.right))),
            );
        }
    } else if lean < -1 {
        let right = *(node.right->0);
        assert(node.right == Some(Box::new(right)));
        assert(balanced(node.right) ==> balanced(right.left) && balanced(right.right) && -1
            <= tree_height(right.left) - tree_height(right.right) <= 1);
        lemma_recorded_height(right.left);
        lemma_recorded_height(right.right);
        if recorded_height(right.right) >= recorded_height(right.left) {
            lemma_rotations_keep_entries(node);
            lemma_joined(node.file, node.left, right.left);
            lemma_joined(
                right.file,
                Some(Box::new(joined(node.file, node.left, right.left))),
                right.right,
            );
        } else {
            let pivot = *(right.left->0);
            assert(right.left == Some(Box::new(pivot)));
            assert(heights_recorded(right.left));
            assert(balanced(right.left) ==> balanced(pivot.left) && balanced(pivot.right) && -1
                <= tree_height(pivot.left) - tree_height(pivot.right) <= 1);
            lemma_recorded_height(pivot.left);
            lemma_recorded_height(pivot.right);
            lemma_rotations_keep_entries(right);
            lemma_joined(right.file, pivot.right, right.right);
            let low = Some(Box::new(joined(right.file, pivot.right, right.right)));
            lemma_joined(pivot.file, pivot.left, low);
            let mid = joined(node.file, node.left, Some(Box::new(rotated_right(right))));
            lemma_rotations_keep_entries(mid);
            lemma_joined(node.file, node.left, Some(Box::new(rotated_right(right))));
            lemma_joined(node.file, node.left, pivot.left);
            lemma_joined(
                pivot.file,
                Some(Box::new(joined(node.file, node.left, pivot.left))),
                low,
            );
        }
    }
}

/// The rank over a concatenation is the sum of the ranks over its parts.
pub proof fn lemma_rank_of_concat(a: Seq<EntryView>, b: Seq<EntryView>, name: Seq<char>)
    ensures
        rank_of(a + b, name) == rank_of(a, name) + rank_of(b, name),
        rank_of(a, name) <= a.len(),
    decreases b.len(),
{
    if b.len() == 0 {
        assert(a + b =~= a);
        lemma_rank_of_bounds(a, name);
    } else {
        assert((a + b).drop_last() =~= a + b.drop_last());
        lemma_rank_of_concat(a, b.drop_last(), name);
    }
}

/// The rank lies between 0 and the length. It is 0 where every name of `s`
/// is ordered after `name`, and the length where none is.
pub proof fn lemma_rank_of_bounds(s: Seq<EntryView>, name: Seq<char>)
    ensures
        rank_of(s, name) <= s.len(),
        (forall|i: int| 0 <= i < s.len() ==> name_less(name, #[trigger] s[i].name)) ==> rank_of(
            s,
            name,
        ) == 0,
        (forall|i: int| 0 <= i < s.len() ==> !name_less(name, #[trigger] s[i].name)) ==> rank_of(
            s,
            name,
        ) == s.len(),
    decreases s.len(),
{
    if s.len() > 0 {
        lemma_rank_of_bounds(s.drop_last(), name);
        assert(forall|i: int| 0 <= i < s.len() - 1 ==> s.drop_last()[i] == s[i]);
    }
}

/// In a sorted sequence the rank of a name parts the entries: those before
/// it have names that are not ordered after the name, those from it on have
/// names that are.
pub proof fn lemma_rank_of_parts_sorted(s: Seq<EntryView>, name: Seq<char>)
    requires
        sorted_by_name(s),
    ensures
        rank_of(s, name) <= s.len(),
        forall|i: int| 0 <= i < rank_of(s, name) ==> !name_less(name, #[trigger] s[i].name),
        forall|i: int| rank_of(s, name) <= i < s.len() ==> name_less(name, #[trigger] s[i].name),
    decreases s.len(),
{
    if s.len() > 0 {
        let front = s.drop_last();
        assert(forall|i: int| 0 <= i < front.len() ==> front[i] == s[i]);
        lemma_rank_of_parts_sorted(front, name);
        if !name_less(name, s.last().name) {
            assert forall|i: int| 0 <= i < front.len() implies !name_less(
                name,
                #[trigger] front[i].name,
            ) by {
                assert(front[i] == s[i]);
                assert(!name_less(s[s.len() - 1].name, s[i].name));
                lemma_bytes_not_above_transitive(
                    encode_utf8(front[i].name),
                    encode_utf8(s.last().name),
                    encode_utf8(name),
                );
            }
            lemma_rank_of_bounds(front, name);
        }
    }
}

/// Putting an entry into a sorted sequence by name leaves it sorted.
pub proof fn lemma_insert_by_name_sorted(s: Seq<EntryView>, entry: EntryView)
    requires
        sorted_by_name(s),
    ensures
        sorted_by_name(insert_by_name(s, entry)),
        insert_by_name(s, entry).len() == s.len() + 1,
{
    lemma_rank_of_parts_sorted(s, entry.name);
    let k = rank_of(s, entry.name) as int;
    let t = insert_by_name(s, entry);
    assert forall|i: int, j: int| 0 <= i < j < t.len() implies !name_less(
        t[j].name,
        t[i].name,
    ) by {
        if j == k {
            assert(t[i] == s[i]);
            assert(t[j] == entry);
        } else if i == k {
            assert(t[j] == s[j - 1]);
            assert(t[i] == entry);
            lemma_bytes_less_asymmetric(encode_utf8(entry.name), encode_utf8(s[j - 1].name));
        } else {
            let si = if i < k { i } else { i - 1 };
            let sj = if j < k { j } else { j - 1 };
            assert(t[i] == s[si]);
            assert(t[j] == s[sj]);
        }
    }
}

/// The two parts of a sorted sequence are sorted, and no name of the second
/// part is ordered before a name of the first.
pub proof fn lemma_sorted_parts(a: Seq<EntryView>, b: Seq<EntryView>)
    requires
        sorted_by_name(a + b),
    ensures
        sorted_by_name(a),
        sorted_by_name(b),
        forall|i: int, j: int|
            0 <= i < a.len() && 0 <= j < b.len() ==> !name_less(
                #[trigger] b[j].name,
                #[trigger] a[i].name,
            ),
{
    let s = a + b;
    assert forall|i: int, j: int| 0 <= i < j < a.len() implies !name_less(
        a[j].name,
        a[i].name,
    ) by {
        assert(s[i] == a[i] && s[j] == a[j]);
    }
    assert forall|i: int, j: int| 0 <= i < j < b.len() implies !name_less(
        b[j].name,
        b[i].name,
    ) by {
        assert(s[a.len() + i] == b[i] && s[a.len() + j] == b[j]);
    }
    assert forall|i: int, j: int| 0 <= i < a.len() && 0 <= j < b.len() implies !name_less(
        #[trigger] b[j].name,
        #[trigger] a[i].name,
    ) by {
        assert(s[i] == a[i] && s[a.len() + j] == b[j]);
    }
}

/// An entry whose name is ordered before the first name of the second part of
/// a sorted sequence belongs in the first part.
pub proof fn lemma_insert_into_front(a: Seq<EntryView>, b: Seq<EntryView>, entry: EntryView)
    requires
        sorted_by_name(a + b),
        b.len() > 0,
        name_less(entry.name, b[0].name),
    ensures
        insert_by_name(a + b, entry) == insert_by_name(a, entry) + b,
{
    lemma_sorted_parts(a, b);
    assert forall|i: int| 0 <= i < b.len() implies name_less(entry.name, #[trigger] b[i].name) by {
        if i > 0 {
            assert(!name_less(b[i].name, b[0].name));
            lemma_bytes_less_then_not_above(
                encode_utf8(entry.name),
                encode_utf8(b[0].name),
                encode_utf8(b[i].name),
            );
        }
    }
    lemma_rank_of_bounds(b, entry.name);
    lemma_rank_of_concat(a, b, entry.name);
    assert(insert_by_name(a + b, entry) =~= insert_by_name(a, entry) + b);
}

/// An entry whose name is not ordered before the last name of the first part
/// of a sorted sequence belongs in the second part.
pub proof fn lemma_insert_into_back(a: Seq<EntryView>, b: Seq<EntryView>, entry: EntryView)
    requires
        sorted_by_name(a + b),
        a.len() > 0,
        !name_less(entry.name, a.last().name),
    ensures
        insert_by_name(a + b, entry) == a + insert_by_name(b, entry),
{
    lemma_sorted_parts(a, b);
    assert forall|i: int| 0 <= i < a.len() implies !name_less(entry.name, #[trigger] a[i].name) by {
        if i < a.len() - 1 {
            assert(!name_less(a[a.len() - 1].name, a[i].name));
            lemma_bytes_not_above_transitive(
                encode_utf8(a[i].name),
                encode_utf8(a.last().name),
                encode_utf8(entry.name),
            );
        }
    }
    lemma_rank_of_bounds(a, entry.name);
    lemma_rank_of_concat(a, b, entry.name);
    lemma_rank_of_bounds(b, entry.name);
    assert(insert_by_name(a + b, entry) =~= a + insert_by_name(b, entry));
}

/// The subtrees of a well-formed tree are well-formed and less high.
pub proof fn lemma_subtrees_well_formed(node: AVLTreeNode)
    requires
        well_formed(Some(Box::new(node))),
    ensures
        well_formed(node.left),
        well_formed(node.right),
        0 <= tree_height(node.left) < tree_height(Some(Box::new(node))),
        0 <= tree_height(node.right) < tree_height(Some(Box::new(node))),
{
    lemma_sorted_parts(tree_entries(node.left) + seq![node.file@], tree_entries(node.right));
    lemma_sorted_parts(tree_entries(node.left), seq![node.file@]);
    lemma_height_not_negative(node.left);
    lemma_height_not_negative(node.right);
}

/// What holds of a well-formed node after an entry whose name is ordered
/// before the node's own has been put into its left subtree and the node has
/// been rebalanced.
pub proof fn lemma_grown_left(node: AVLTreeNode, grown: AVLTreeNode, entry: EntryView)
    requires
        well_formed(Some(Box::new(node))),
        tree_height(Some(Box::new(node))) < i32::MAX,
        name_less(entry.name, node.file@.name),
        grown.file == node.file,
        grown.right == node.right,
        well_formed(grown.left),
        tree_entries(grown.left) == insert_by_name(tree_entries(node.left), entry),
        tree_height(node.left) <= tree_height(grown.left) <= tree_height(node.left) + 1,
    ensures
        well_formed(Some(Box::new(rebalanced(grown)))),
        tree_entries(Some(Box::new(rebalanced(grown)))) == insert_by_name(
            tree_entries(Some(Box::new(node))),
            entry,
        ),
        tree_height(Some(Box::new(node))) <= tree_height(Some(Box::new(rebalanced(grown))))
            <= tree_height(Some(Box::new(node))) + 1,
{
    let low = tree_entries(node.left);
    let high = tree_entries(node.right);
    let here = seq![node.file@];
    let before = tree_entries(Some(Box::new(node)));
    lemma_subtrees_well_formed(node);
    lemma_rebalanced(grown);
    assert(before =~= low + (here + high));
    lemma_insert_into_front(low, here + high, entry);
    assert(tree_entries(Some(Box::new(grown))) =~= insert_by_name(low, entry) + (here + high));
    lemma_insert_by_name_sorted(before, entry);
}

/// What holds of a well-formed node after an entry whose name is not ordered
/// before the node's own has been put into its right subtree and the node has
/// been rebalanced.
pub proof fn lemma_grown_right(node: AVLTreeNode, grown: AVLTreeNode, entry: EntryView)
    requires
        well_formed(Some(Box::new(node))),
        tree_height(Some(Box::new(node))) < i32::MAX,
        !name_less(entry.name, node.file@.name),
        grown.file == node.file,
        grown.left == node.left,
        well_formed(grown.right),
        tree_entries(grown.right) == insert_by_name(tree_entries(node.right), entry),
        tree_height(node.right) <= tree_height(grown.right) <= tree_height(node.right) + 1,
    ensures
        well_formed(Some(Box::new(rebalanced(grown)))),
        tree_entries(Some(Box::new(rebalanced(grown)))) == insert_by_name(
            tree_entries(Some(Box::new(node))),
            entry,
        ),
        tree_height(Some(Box::new(node))) <= tree_height(Some(Box::new(rebalanced(grown))))
            <= tree_height(Some(Box::new(node))) + 1,
{
    let low = tree_entries(node.left);
    let high = tree_entries(node.right);
    let here = seq![node.file@];
    let before = tree_entries(Some(Box::new(node)));
    lemma_subtrees_well_formed(node);
    lemma_rebalanced(grown);
    lemma_insert_into_back(low + here, high, entry);
    assert(tree_entries(Some(Box::new(grown))) =~= (low + here) + insert_by_name(high, entry));
    lemma_insert_by_name_sorted(before, entry);
}

/// Insertion keeps a tree well-formed, puts the new entry where it belongs by
/// name, and raises the height by at most one level.
pub proof fn lemma_inserted(tree: Option<Box<AVLTreeNode>>, file: FileMetadata)
    requires
        well_formed(tree),
        tree_height(tree) < i32::MAX,
    ensures
        well_formed(Some(Box::new(inserted(tree, file)))),
        tree_entries(Some(Box::new(inserted(tree, file)))) == insert_by_name(
            tree_entries(tree),
            file@,
        ),
        tree_height(tree) <= tree_height(Some(Box::new(inserted(tree, file)))) <= tree_height(tree)
            + 1,
    decreases tree,
{
    let after = Some(Box::new(inserted(tree, file)));
    match tree {
        None => {
            assert(tree_entries(after) =~= insert_by_name(tree_entries(tree), file@));
            assert(tree_height(after->0.left) == 0 && tree_height(after->0.right) == 0);
        },
        Some(node) => {
            lemma_subtrees_well_formed(*node);
            if name_less(file.name@, node.file.name@) {
                lemma_inserted(node.left, file);
                let grown = AVLTreeNode {
                    file: node.file,
                    left: Some(Box::new(inserted(node.left, file))),
                    right: node.right,
                    height: node.height,
                };
                lemma_grown_left(*node, grown, file@);
            } else {
                lemma_inserted(node.right, file);
                let grown = AVLTreeNode {
                    file: node.file,
                    left: node.left,
                    right: Some(Box::new(inserted(node.right, file))),
                    height: node.height,
                };
                lemma_grown_right(*node, grown, file@);
            }
        },
    }
}

/// A higher balanced tree needs at least as many nodes.
pub proof fn lemma_least_size_monotone(low: nat, high: nat)
    requires
        low <= high,
    ensures
        least_size(low) <= least_size(high),
    decreases high,
{
    if low < high {
        lemma_least_size_monotone(low, (high - 1) as nat);
    }
}

/// Two more levels at least double the number of nodes: a balanced tree of
/// height `2 * half` has at least `2^half - 1` nodes.
pub proof fn lemma_least_size_exponential(half: nat)
    ensures
        least_size(2 * half) + 1 >= pow2(half),
    decreases half,
{
    if half == 0 {
        lemma2_to64();
    } else {
        lemma_least_size_exponential((half - 1) as nat);
        lemma_least_size_monotone((2 * half - 2) as nat, (2 * half - 1) as nat);
        lemma_pow2_unfold(half);
    }
}

/// A balanced tree has at least as many entries as its height demands.
pub proof fn lemma_balanced_size(tree: Option<Box<AVLTreeNode>>)
    requires
        balanced(tree),
    ensures
        tree_height(tree) >= 0,
        tree_entries(tree).len() >= least_size(tree_height(tree) as nat),
    decreases tree,
{
    lemma_height_not_negative(tree);
    if let Some(node) = tree {
        lemma_balanced_size(node.left);
        lemma_balanced_size(node.right);
        lemma_height_not_negative(node.left);
        lemma_height_not_negative(node.right);
        let low = tree_height(node.left) as nat;
        let high = tree_height(node.right) as nat;
        if low >= high && low >= 1 {
            lemma_least_size_monotone((low - 1) as nat, high);
        } else if high >= 1 {
            lemma_least_size_monotone((high - 1) as nat, low);
        }
    }
}

/// The height of a balanced tree is logarithmic in the number of its entries:
/// with fewer than 2^64 entries it has fewer than 130 levels.
pub proof fn lemma_height_logarithmic(tree: Option<Box<AVLTreeNode>>)
    requires
        balanced(tree),
        tree_entries(tree).len() <= u64::MAX,
    ensures
        0 <= tree_height(tree) < 130,
{
    lemma_balanced_size(tree);
    if tree_height(tree) >= 130 {
        lemma_least_size_monotone(130, tree_height(tree) as nat);
        lemma_least_size_exponential(65);
        lemma2_to64();
        lemma_pow2_unfold(65);
    }
}

/// An index into which entries were inserted one after the other holds as
/// many entries as were inserted, sorted by name.
pub proof fn lemma_inserted_all_sorted(entries: Seq<EntryView>)
    ensures
        sorted_by_name(inserted_all(entries)),
        inserted_all(entries).len() == entries.len(),
    decreases entries.len(),
{
    if entries.len() > 0 {
        lemma_inserted_all_sorted(entries.drop_last());
        lemma_insert_by_name_sorted(inserted_all(entries.drop_last()), entries.last());
    }
}

/// After any sequence of insertions into the empty tree, the tree is
/// balanced at every node, its in-order traversal is sorted by name and holds
/// the inserted entries, every node records its true height, and the height
/// is logarithmic in the number of entries.
pub proof fn lemma_built(files: Seq<FileMetadata>)
    requires
        files.len() <= u64::MAX,
    ensures
        well_formed(built(files)),
        balanced(built(files)),
        sorted_by_name(tree_entries(built(files))),
        tree_entries(built(files)) == inserted_all(entry_views(files)),
        tree_entries(built(files)).len() == files.len(),
        0 <= tree_height(built(files)) < 130,
    decreases files.len(),
{
    if files.len() > 0 {
        let front = files.drop_last();
        lemma_built(front);
        lemma_inserted(built(front), files.last());
        assert(entry_views(files).drop_last() =~= entry_views(front));
        assert(entry_views(files).last() == files.last()@);
        lemma_inserted_all_sorted(entry_views(files));
        lemma_height_logarithmic(built(files));
    } else {
        assert(entry_views(files) =~= Seq::empty());
    }
}

impl Clone for AVLTreeNode {
    /// A copy of the whole subtree.
    fn clone(&self) -> (copy: Self)
        ensures
            copy == *self,
        decreases self,
    {
        AVLTreeNode {
            file: self.file.clone(),
            left: match &self.left {
                Some(node) => Some(Box::new((&**node).clone())),
                None => None,
            },
            right: match &self.right {
                Some(node) => Some(Box::new((&**node).clone())),
                None => None,
            },
            height: self.height,
        }
    }
}

impl AVLTreeNode {
    /// A leaf that holds `file`.
    pub fn new(file: FileMetadata) -> (node: Self)
        ensures
            node.file == file,
            node.left is None,
            node.right is None,
            node.height == 1,
    {
        AVLTreeNode { file, left: None, right: None, height: 1 }
    }
}

/// The height that the root of `node` records; 0 for the empty tree.
pub fn get_height(node: &Option<Box<AVLTreeNode>>) -> (h: i32)
    ensures
        h == recorded_height(*node),
{
    match node {
        Some(node) => node.height,
        None => 0,
    }
}

/// Records at `node` one more than the larger of the heights that its two
/// children record.
pub fn update_height(node: &mut Box<AVLTreeNode>)
    requires
        recorded_height(old(node).left) < i32::MAX,
        recorded_height(old(node).right) < i32::MAX,
    ensures
        **final(node) == joined(old(node).file, old(node).left, old(node).right),
{
    let left = get_height(&node.left);
    let right = get_height(&node.right);
    node.height = 1 + if left >= right { left } else { right };
}

/// Rotates `node` to the left and returns the new root of the subtree.
pub fn rotate_left(node: Box<AVLTreeNode>) -> (root: Box<AVLTreeNode>)
    requires
        node.right is Some,
        recorded_height(node.left) < i32::MAX - 1,
        recorded_height(node.right->0.left) < i32::MAX - 1,
        recorded_height(node.right->0.right) < i32::MAX,
    ensures
        *root == rotated_left(*node),
        tree_entries(Some(root)) == tree_entries(Some(node)),
{
    proof {
        lemma_rotations_keep_entries(*node);
    }
    let mut node = node;
    let mut right = node.right.take().unwrap();
    node.right = right.left.take();
    update_height(&mut node);
    right.left = Some(node);
    update_height(&mut right);
    right
}

/// Rotates `node` to the right and returns the new root of the subtree.
pub fn rotate_right(node: Box<AVLTreeNode>) -> (root: Box<AVLTreeNode>)
    requires
        node.left is Some,
        recorded_height(node.right) < i32::MAX - 1,
        recorded_height(node.left->0.right) < i32::MAX - 1,
        recorded_height(node.left->0.left) < i32::MAX,
    ensures
        *root == rotated_right(*node),
        tree_entries(Some(root)) == tree_entries(Some(node)),
{
    proof {
        lemma_rotations_keep_entries(*node);
    }
    let mut node = node;
    let mut left = node.left.take().unwrap();
    node.left = left.right.take();
    update_height(&mut node);
    left.right = Some(node);
    update_height(&mut left);
    left
}

/// Restores the balance at `node` after one of its subtrees has grown or
/// shrunk by one level, and returns the new root of the subtree.
pub fn balance_avl_tree(node: Box<AVLTreeNode>) -> (root: Box<AVLTreeNode>)
    requires
        heights_recorded(node.left),
        heights_recorded(node.right),
        tree_height(node.left) < i32::MAX,
        tree_height(node.right) < i32::MAX,
    ensures
        *root == rebalanced(*node),
        tree_entries(Some(root)) == tree_entries(Some(node)),
        heights_recorded(Some(root)),
        larger(tree_height(node.left), tree_height(node.right)) <= tree_height(Some(root)) <= 1
            + larger(tree_height(node.left), tree_height(node.right)),
        -1 <= tree_height(node.left) - tree_height(node.right) <= 1 ==> tree_height(Some(root))
            == 1 + larger(tree_height(node.left), tree_height(node.right)),
        balanced(node.left) && balanced(node.right) && -2 <= tree_height(node.left)
            - tree_height(node.right) <= 2 ==> balanced(Some(root)),
{
    proof {
        reveal(rebalanced);
        lemma_rebalanced(*node);
        lemma_recorded_height(node.left);
        lemma_recorded_height(node.right);
    }
    let mut node = node;
    update_height(&mut node);
    let balance = get_height(&node.left) - get_height(&node.right);
    if balance > 1 {
        let left = node.left.take().unwrap();
        proof {
            lemma_recorded_height(left.left);
            lemma_recorded_height(left.right);
        }
        if get_height(&left.left) >= get_height(&left.right) {
            node.left = Some(left);
            node = rotate_right(node);
        } else {
            proof {
                assert(heights_recorded(left.right));
                lemma_recorded_height(left.right->0.left);
                lemma_recorded_height(left.right->0.right);
            }
            node.left = Some(rotate_left(left));
            node = rotate_right(node);
        }
    } else if balance < -1 {
        let right = node.right.take().unwrap();
        proof {
            lemma_recorded_height(right.left);
            lemma_recorded_height(right.right);
        }
        if get_height(&right.right) >= get_height(&right.left) {
            node.right = Some(right);
            node = rotate_left(node);
        } else {
            proof {
                assert(heights_recorded(right.left));
                lemma_recorded_height(right.left->0.left);
                lemma_recorded_height(right.left->0.right);
            }
            node.right = Some(rotate_right(right));
            node = rotate_left(node);
        }
    }
    node
}

/// Inserts `file` into the tree `root` and returns the new root.
///
/// The entry is placed by its name; an entry whose name is already there
/// is kept as well and follows the earlier ones.
pub fn insert_into_avl_tree(root: Option<Box<AVLTreeNode>>, file: FileMetadata) -> (new_root: Box<
    AVLTreeNode,
>)
    requires
        well_formed(root),
        tree_height(root) < i32::MAX,
    ensures
        *new_root == inserted(root, file),
        well_formed(Some(new_root)),
        tree_entries(Some(new_root)) == insert_by_name(tree_entries(root), file@),
        tree_height(root) <= tree_height(Some(new_root)) <= tree_height(root) + 1,
    decreases root,
{
    proof {
        lemma_inserted(root, file);
    }
    match root {
        None => Box::new(AVLTreeNode::new(file)),
        Some(node) => {
            let mut node = node;
            proof {
                lemma_subtrees_well_formed(*node);
            }
            if name_precedes(&file.name, &node.file.name) {
                let left = node.left.take();
                node.left = Some(insert_into_avl_tree(left, file));
            } else {
                let right = node.right.take();
                node.right = Some(insert_into_avl_tree(right, file));
            }
            balance_avl_tree(node)
        },
    }
}

} // verus!
