//! Unit tests of the symbol tree operations: shape construction and
//! serialization, leaf filling, walking, searching, and the path table.

use bitcodec::table::{lookup_tree, table_get};
use bitcodec::tree::{
    check_tree, concat_tree, construct_tree, deconstruct_tree, fill_tree, read_tree, NodeKind,
    NodeType, Tree, _find_tree,
};

/// A two-leaf tree: head leaf `[true]`, tail leaf `[false]`.
fn two_leaf_tree() -> Tree {
    Tree {
        head: NodeType::Value(vec![true]),
        tail: NodeType::Value(vec![false]),
    }
}

/// Head is a leaf `[0,0]`; tail is a subtree with leaves `[0,1]` and `[1,0]`.
fn three_leaf_tree() -> Tree {
    Tree {
        head: NodeType::Value(vec![false, false]),
        tail: NodeType::Tree(Box::new(Tree {
            head: NodeType::Value(vec![false, true]),
            tail: NodeType::Value(vec![true, false]),
        })),
    }
}

#[test]
fn new_tree_is_empty() {
    let tree = Tree::new();
    assert!(tree.head._is_null());
    assert!(tree.tail._is_null());
    assert!(!check_tree(&tree, NodeKind::Empty));
    assert!(check_tree(&tree, NodeKind::Data));
    assert!(check_tree(&tree, NodeKind::Value));
    assert!(check_tree(&tree, NodeKind::Tree));
}

#[test]
fn deconstruct_two_leaf_tree() {
    // Head leaf emits 1, tail leaf emits 0.
    let shape = deconstruct_tree(&two_leaf_tree());
    assert_eq!(shape, vec![true, false]);
}

#[test]
fn deconstruct_three_leaf_tree() {
    // Head leaf: 1.  Tail internal: 1, then its head leaf 1 and tail leaf 0.
    let shape = deconstruct_tree(&three_leaf_tree());
    assert_eq!(shape, vec![true, true, true, false]);
}

#[test]
fn construct_rebuilds_two_leaf_shape() {
    let shape = deconstruct_tree(&two_leaf_tree());
    let mut tree = Tree::new();
    for &bit in &shape {
        assert!(!check_tree(&tree, NodeKind::Empty));
        assert!(construct_tree(&mut tree, bit));
    }
    assert!(check_tree(&tree, NodeKind::Empty));
    assert!(matches!(tree.head, NodeType::Data));
    assert!(matches!(tree.tail, NodeType::Data));
    // A complete shape consumes no further bits.
    assert!(!construct_tree(&mut tree, true));
}

#[test]
fn construct_and_fill_rebuild_three_leaf_tree() {
    let original = three_leaf_tree();
    let shape = deconstruct_tree(&original);
    let values = concat_tree(&original);
    assert_eq!(
        values,
        vec![false, false, false, true, true, false],
    );
    let mut tree = Tree::new();
    for &bit in &shape {
        assert!(construct_tree(&mut tree, bit));
    }
    assert!(check_tree(&tree, NodeKind::Empty));
    for group in values.chunks(2) {
        assert!(!check_tree(&tree, NodeKind::Data));
        assert!(fill_tree(&mut tree, group));
    }
    assert!(check_tree(&tree, NodeKind::Data));
    assert_eq!(deconstruct_tree(&tree), shape);
    assert_eq!(concat_tree(&tree), values);
}

#[test]
fn read_walks_to_each_leaf() {
    let tree = three_leaf_tree();
    assert_eq!(read_tree(&tree, &[false]), Some(vec![false, false]));
    assert_eq!(read_tree(&tree, &[true, false]), Some(vec![false, true]));
    assert_eq!(read_tree(&tree, &[true, true]), Some(vec![true, false]));
    // A path ending on an internal node resolves nothing.
    assert_eq!(read_tree(&tree, &[true]), None);
}

#[test]
fn find_returns_each_leaf_path() {
    let tree = three_leaf_tree();
    assert_eq!(_find_tree(&tree, &[false, false]), Some(vec![false]));
    assert_eq!(_find_tree(&tree, &[false, true]), Some(vec![true, false]));
    assert_eq!(_find_tree(&tree, &[true, false]), Some(vec![true, true]));
    assert_eq!(_find_tree(&tree, &[true, true]), None);
}

#[test]
fn lookup_table_maps_paths_to_values() {
    let tree = three_leaf_tree();
    let table = lookup_tree(&tree, &[], false);
    assert_eq!(table.len(), 3);
    assert_eq!(table[0], (vec![false], vec![false, false]));
    assert_eq!(table[1], (vec![true, false], vec![false, true]));
    assert_eq!(table[2], (vec![true, true], vec![true, false]));
    assert_eq!(
        table_get(&table, &vec![true, false]),
        Some(vec![false, true]),
    );
    assert_eq!(table_get(&table, &vec![false, true]), None);
}

#[test]
fn lookup_table_maps_values_to_paths() {
    let tree = three_leaf_tree();
    let table = lookup_tree(&tree, &[], true);
    assert_eq!(table.len(), 3);
    assert_eq!(table[0], (vec![false, false], vec![false]));
    assert_eq!(
        table_get(&table, &vec![true, false]),
        Some(vec![true, true]),
    );
    assert_eq!(table_get(&table, &vec![true, true]), None);
}

#[test]
fn prefix_free_paths() {
    // No leaf path of the synthesized table is a prefix of another.
    let tree = three_leaf_tree();
    let table = lookup_tree(&tree, &[], false);
    for (i, (p1, _)) in table.iter().enumerate() {
        for (j, (p2, _)) in table.iter().enumerate() {
            if i != j {
                assert!(p1.len() > p2.len() || p1[..] != p2[..p1.len()]);
            }
        }
    }
}
