use dir_index::avl::{
    balance_avl_tree, get_height, insert_into_avl_tree, rotate_left, rotate_right, update_height,
    AVLTreeNode,
};
use dir_index::entry::{FileMetadata, FileType};
use dir_index::names::{bytes_equal, bytes_precede, name_precedes, same_text};
use dir_index::search::{in_order as entries_in_order, search_avl_by_name, search_avl_tree};

fn file(name: &str, size: u64) -> FileMetadata {
    FileMetadata {
        name: name.to_string(),
        path: format!("/root/{}", name),
        size,
        file_type: FileType::File,
    }
}

fn file_at(name: &str, path: &str, size: u64) -> FileMetadata {
    FileMetadata {
        name: name.to_string(),
        path: path.to_string(),
        size,
        file_type: FileType::File,
    }
}

fn build(names: &[&str]) -> Option<Box<AVLTreeNode>> {
    let mut root = None;
    for (i, name) in names.iter().enumerate() {
        root = Some(insert_into_avl_tree(root, file(name, i as u64)));
    }
    root
}

fn in_order(tree: &Option<Box<AVLTreeNode>>, out: &mut Vec<(String, u64)>) {
    if let Some(node) = tree {
        in_order(&node.left, out);
        out.push((node.file.name.clone(), node.file.size));
        in_order(&node.right, out);
    }
}

fn listed(tree: &Option<Box<AVLTreeNode>>) -> Vec<(String, u64)> {
    let mut out = Vec::new();
    in_order(tree, &mut out);
    out
}

fn names_of(tree: &Option<Box<AVLTreeNode>>) -> Vec<String> {
    listed(tree).into_iter().map(|(name, _)| name).collect()
}

/// The true height of the tree; panics where a node records another height
/// or is out of balance.
fn checked_height(tree: &Option<Box<AVLTreeNode>>) -> i32 {
    match tree {
        None => 0,
        Some(node) => {
            let left = checked_height(&node.left);
            let right = checked_height(&node.right);
            assert!((left - right).abs() <= 1, "out of balance at {}", node.file.name);
            let height = 1 + left.max(right);
            assert_eq!(node.height, height, "wrong height at {}", node.file.name);
            height
        }
    }
}

fn leaf(name: &str) -> Option<Box<AVLTreeNode>> {
    Some(Box::new(AVLTreeNode::new(file(name, 0))))
}

fn node(
    name: &str,
    left: Option<Box<AVLTreeNode>>,
    right: Option<Box<AVLTreeNode>>,
) -> Box<AVLTreeNode> {
    let mut node = Box::new(AVLTreeNode {
        file: file(name, 0),
        left,
        right,
        height: 0,
    });
    update_height(&mut node);
    node
}

#[test]
fn names_are_ordered_by_their_bytes() {
    assert!(name_precedes("a", "b"));
    assert!(!name_precedes("b", "a"));
    assert!(!name_precedes("a", "a"));
    assert!(name_precedes("a", "ab"));
    assert!(!name_precedes("ab", "a"));
    assert!(name_precedes("", "a"));
    assert!(!name_precedes("", ""));
    assert!(name_precedes("B", "a"));
    assert!(name_precedes("a.txt", "b.txt"));
    assert!(name_precedes("z", "\u{e9}"));
    assert!(name_precedes("\u{e9}", "\u{4e2d}"));
}

#[test]
fn name_order_agrees_with_the_order_of_strings() {
    let samples = ["", "a", "A", "ab", "abc", "b", "a.txt", "\u{e9}t\u{e9}", "\u{4e2d}", "zz", "a b"];
    for a in samples {
        for b in samples {
            assert_eq!(name_precedes(a, b), a < b, "{:?} {:?}", a, b);
            assert_eq!(same_text(a, b), a == b, "{:?} {:?}", a, b);
        }
    }
}

#[test]
fn byte_strings_are_compared_lexicographically() {
    assert!(bytes_precede(&[1, 2], &[1, 3]));
    assert!(bytes_precede(&[1, 2], &[1, 2, 0]));
    assert!(!bytes_precede(&[1, 2, 0], &[1, 2]));
    assert!(!bytes_precede(&[], &[]));
    assert!(bytes_precede(&[], &[0]));
    assert!(bytes_precede(&[0, 255], &[1]));
    assert!(bytes_equal(&[], &[]));
    assert!(bytes_equal(&[7, 8], &[7, 8]));
    assert!(!bytes_equal(&[7, 8], &[7, 9]));
    assert!(!bytes_equal(&[7], &[7, 8]));
}

#[test]
fn a_new_node_is_a_leaf_of_height_one() {
    let node = AVLTreeNode::new(file("a", 3));
    assert_eq!(node.file, file("a", 3));
    assert!(node.left.is_none());
    assert!(node.right.is_none());
    assert_eq!(node.height, 1);
}

#[test]
fn the_height_of_the_empty_tree_is_zero() {
    assert_eq!(get_height(&None), 0);
    assert_eq!(get_height(&leaf("a")), 1);
}

#[test]
fn update_height_counts_the_higher_subtree() {
    let low = node("b", leaf("a"), None);
    assert_eq!(low.height, 2);
    let top = node("d", Some(low), leaf("e"));
    assert_eq!(top.height, 3);
    let mut stale = Box::new(AVLTreeNode { file: file("x", 0), left: None, right: None, height: 9 });
    update_height(&mut stale);
    assert_eq!(stale.height, 1);
}

#[test]
fn rotate_left_promotes_the_right_child() {
    // a < b < c < d < e, with b at the root and d to its right
    let root = node("b", leaf("a"), Some(node("d", leaf("c"), leaf("e"))));
    let before = names_of(&Some(root.clone()));
    let rotated = rotate_left(root);
    assert_eq!(rotated.file.name, "d");
    assert_eq!(rotated.height, 3);
    let left = rotated.left.as_ref().unwrap();
    assert_eq!(left.file.name, "b");
    assert_eq!(left.height, 2);
    assert_eq!(left.left.as_ref().unwrap().file.name, "a");
    assert_eq!(left.right.as_ref().unwrap().file.name, "c");
    assert_eq!(rotated.right.as_ref().unwrap().file.name, "e");
    assert_eq!(names_of(&Some(rotated)), before);
}

#[test]
fn rotate_right_promotes_the_left_child() {
    let root = node("d", Some(node("b", leaf("a"), leaf("c"))), leaf("e"));
    let before = names_of(&Some(root.clone()));
    let rotated = rotate_right(root);
    assert_eq!(rotated.file.name, "b");
    assert_eq!(rotated.height, 3);
    let right = rotated.right.as_ref().unwrap();
    assert_eq!(right.file.name, "d");
    assert_eq!(right.height, 2);
    assert_eq!(right.left.as_ref().unwrap().file.name, "c");
    assert_eq!(right.right.as_ref().unwrap().file.name, "e");
    assert_eq!(rotated.left.as_ref().unwrap().file.name, "a");
    assert_eq!(names_of(&Some(rotated)), before);
}

#[test]
fn a_rotation_and_its_mirror_cancel() {
    let root = node("b", leaf("a"), Some(node("d", leaf("c"), leaf("e"))));
    let back = rotate_right(rotate_left(root));
    assert_eq!(back.file.name, "b");
    assert_eq!(back.right.as_ref().unwrap().file.name, "d");
    assert_eq!(back.height, 3);
}

#[test]
fn balance_leaves_a_balanced_node_alone() {
    let root = Box::new(AVLTreeNode {
        file: file("b", 0),
        left: leaf("a"),
        right: leaf("c"),
        height: 7,
    });
    let balanced = balance_avl_tree(root);
    assert_eq!(balanced.file.name, "b");
    assert_eq!(balanced.height, 2);
    assert_eq!(names_of(&Some(balanced)), ["a", "b", "c"]);
}

#[test]
fn balance_rotates_right_when_the_left_side_leans_left() {
    let root = node("c", Some(node("b", leaf("a"), None)), None);
    let balanced = balance_avl_tree(root);
    assert_eq!(balanced.file.name, "b");
    assert_eq!(balanced.left.as_ref().unwrap().file.name, "a");
    assert_eq!(balanced.right.as_ref().unwrap().file.name, "c");
    assert_eq!(checked_height(&Some(balanced)), 2);
}

#[test]
fn balance_rotates_twice_when_the_left_side_leans_right() {
    let root = node("c", Some(node("a", None, leaf("b"))), None);
    let balanced = balance_avl_tree(root);
    assert_eq!(balanced.file.name, "b");
    assert_eq!(balanced.left.as_ref().unwrap().file.name, "a");
    assert_eq!(balanced.right.as_ref().unwrap().file.name, "c");
    assert_eq!(checked_height(&Some(balanced)), 2);
}

#[test]
fn balance_rotates_left_when_the_right_side_leans_right() {
    let root = node("a", None, Some(node("b", None, leaf("c"))));
    let balanced = balance_avl_tree(root);
    assert_eq!(balanced.file.name, "b");
    assert_eq!(balanced.left.as_ref().unwrap().file.name, "a");
    assert_eq!(balanced.right.as_ref().unwrap().file.name, "c");
    assert_eq!(checked_height(&Some(balanced)), 2);
}

#[test]
fn balance_rotates_twice_when_the_right_side_leans_left() {
    let root = node("a", None, Some(node("c", leaf("b"), None)));
    let balanced = balance_avl_tree(root);
    assert_eq!(balanced.file.name, "b");
    assert_eq!(balanced.left.as_ref().unwrap().file.name, "a");
    assert_eq!(balanced.right.as_ref().unwrap().file.name, "c");
    assert_eq!(checked_height(&Some(balanced)), 2);
}

#[test]
fn balance_prefers_the_single_rotation_on_equal_heights() {
    // the left child has two subtrees of the same height
    let root = node("d", Some(node("b", leaf("a"), leaf("c"))), None);
    let balanced = balance_avl_tree(root);
    assert_eq!(balanced.file.name, "b");
    assert_eq!(balanced.height, 3);
    assert_eq!(balanced.right.as_ref().unwrap().file.name, "d");
    assert_eq!(balanced.right.as_ref().unwrap().left.as_ref().unwrap().file.name, "c");
    assert_eq!(names_of(&Some(balanced)), ["a", "b", "c", "d"]);
}

#[test]
fn inserting_into_the_empty_tree_gives_a_leaf() {
    let root = insert_into_avl_tree(None, file("a", 1));
    assert_eq!(root.height, 1);
    assert_eq!(root.file, file("a", 1));
    assert!(root.left.is_none() && root.right.is_none());
}

#[test]
fn ascending_inserts_stay_balanced() {
    let names: Vec<String> = (0..100).map(|i| format!("f{:03}", i)).collect();
    let mut root = None;
    for name in &names {
        root = Some(insert_into_avl_tree(root, file(name, 0)));
        checked_height(&root);
    }
    assert_eq!(names_of(&root), names);
    assert_eq!(checked_height(&root), 7);
}

#[test]
fn descending_inserts_stay_balanced() {
    let mut names: Vec<String> = (0..100).map(|i| format!("f{:03}", i)).collect();
    let mut root = None;
    for name in names.iter().rev() {
        root = Some(insert_into_avl_tree(root, file(name, 0)));
        checked_height(&root);
    }
    names.sort();
    assert_eq!(names_of(&root), names);
    assert_eq!(checked_height(&root), 7);
}

#[test]
fn scattered_inserts_stay_balanced_and_sorted() {
    let mut root = None;
    let mut names = Vec::new();
    let mut x: u64 = 12345;
    for _ in 0..500 {
        x = x.wrapping_mul(6364136223846793005).wrapping_add(1442695040888963407);
        let name = format!("n{}", (x >> 33) % 200);
        names.push(name.clone());
        root = Some(insert_into_avl_tree(root, file(&name, 0)));
        checked_height(&root);
    }
    names.sort();
    assert_eq!(names_of(&root), names);
    assert!(checked_height(&root) <= 12);
}

#[test]
fn three_ascending_inserts_rotate_left() {
    let root = build(&["a", "b", "c"]);
    let top = root.as_ref().unwrap();
    assert_eq!(top.file.name, "b");
    assert_eq!(top.left.as_ref().unwrap().file.name, "a");
    assert_eq!(top.right.as_ref().unwrap().file.name, "c");
    assert_eq!(top.height, 2);
}

#[test]
fn a_zigzag_of_inserts_rotates_twice() {
    let root = build(&["c", "a", "b"]);
    let top = root.as_ref().unwrap();
    assert_eq!(top.file.name, "b");
    assert_eq!(top.left.as_ref().unwrap().file.name, "a");
    assert_eq!(top.right.as_ref().unwrap().file.name, "c");
    let root = build(&["a", "c", "b"]);
    let top = root.as_ref().unwrap();
    assert_eq!(top.file.name, "b");
    assert_eq!(top.left.as_ref().unwrap().file.name, "a");
    assert_eq!(top.right.as_ref().unwrap().file.name, "c");
}

#[test]
fn equal_names_are_all_kept_in_the_order_of_insertion() {
    // the sizes number the insertions
    let root = build(&["m", "a", "m", "z", "m", "a", "m"]);
    checked_height(&root);
    assert_eq!(
        listed(&root),
        [
            ("a".to_string(), 1),
            ("a".to_string(), 5),
            ("m".to_string(), 0),
            ("m".to_string(), 2),
            ("m".to_string(), 4),
            ("m".to_string(), 6),
            ("z".to_string(), 3),
        ]
    );
}

#[test]
fn many_equal_names_stay_balanced() {
    let mut root = None;
    for i in 0..64 {
        root = Some(insert_into_avl_tree(root, file("same", i)));
    }
    assert_eq!(checked_height(&root), 7);
    let sizes: Vec<u64> = listed(&root).into_iter().map(|(_, size)| size).collect();
    assert_eq!(sizes, (0..64).collect::<Vec<u64>>());
}

#[test]
fn a_clone_is_the_same_tree() {
    let root = build(&["d", "b", "f", "a", "c", "e", "g"]);
    let copy = root.clone();
    assert_eq!(listed(&copy), listed(&root));
    assert_eq!(copy.as_ref().unwrap().height, 3);
    assert_eq!(copy.as_ref().unwrap().file.name, "d");
}

#[test]
fn search_by_path_finds_each_inserted_entry() {
    let names = ["d", "b", "f", "a", "c", "e", "g"];
    let root = build(&names);
    for (i, name) in names.iter().enumerate() {
        let found = search_avl_tree(&root, &format!("/root/{}", name));
        assert_eq!(found, Some(file(name, i as u64)));
    }
    assert_eq!(search_avl_tree(&root, "/root/h"), None);
    assert_eq!(search_avl_tree(&root, "d"), None);
    assert_eq!(search_avl_tree(&None, "/root/d"), None);
}

#[test]
fn search_by_path_does_not_rely_on_the_order_of_paths() {
    // the order of the paths is the reverse of the order of the names
    let mut root = None;
    let entries =
        [("a", "/z"), ("b", "/y"), ("c", "/x"), ("d", "/w"), ("e", "/v"), ("f", "/u"), ("g", "/t")];
    for (name, path) in entries {
        root = Some(insert_into_avl_tree(root, file_at(name, path, 1)));
    }
    for (name, path) in entries {
        assert_eq!(search_avl_tree(&root, path), Some(file_at(name, path, 1)));
    }
}

#[test]
fn search_by_path_returns_the_first_of_several_in_order() {
    let mut root = None;
    root = Some(insert_into_avl_tree(root, file_at("m", "/p", 1)));
    root = Some(insert_into_avl_tree(root, file_at("z", "/same", 2)));
    root = Some(insert_into_avl_tree(root, file_at("a", "/same", 3)));
    assert_eq!(search_avl_tree(&root, "/same"), Some(file_at("a", "/same", 3)));
}

#[test]
fn search_by_name_returns_all_matches_in_ascending_order() {
    let mut root = None;
    root = Some(insert_into_avl_tree(root, file_at("x", "/1/x", 1)));
    root = Some(insert_into_avl_tree(root, file_at("a", "/1/a", 2)));
    root = Some(insert_into_avl_tree(root, file_at("x", "/2/x", 3)));
    root = Some(insert_into_avl_tree(root, file_at("y", "/1/y", 4)));
    root = Some(insert_into_avl_tree(root, file_at("x", "/3/x", 5)));
    let found = search_avl_by_name(&root, "x");
    assert_eq!(
        found,
        [file_at("x", "/1/x", 1), file_at("x", "/2/x", 3), file_at("x", "/3/x", 5)]
    );
    assert_eq!(search_avl_by_name(&root, "a"), [file_at("a", "/1/a", 2)]);
    assert!(search_avl_by_name(&root, "missing").is_empty());
    assert!(search_avl_by_name(&None, "x").is_empty());
}

#[test]
fn in_order_lists_the_entries_in_ascending_order() {
    let root = build(&["d", "b", "f", "a", "c", "e", "g"]);
    let names: Vec<String> = entries_in_order(&root).into_iter().map(|e| e.name).collect();
    assert_eq!(names, ["a", "b", "c", "d", "e", "f", "g"]);
    assert_eq!(entries_in_order(&root)[3], file("d", 0));
    assert!(entries_in_order(&None).is_empty());
    let found: Vec<(String, u64)> =
        entries_in_order(&root).into_iter().map(|e| (e.name, e.size)).collect();
    assert_eq!(found, listed(&root));
}
