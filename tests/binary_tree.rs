use ods_tries::binary_tree::{BinaryTree, WrapNode};

#[test]
fn node_eq_test() {
    let mut node = BinaryTree::new(1);
    node.add(2);
    node.add(3);
    node.add(0);

    let mut two = WrapNode::new(2);
    let three = WrapNode::new(3);
    two.set_right(Some(three));
    let zero = WrapNode::new(0);
    let mut tobe = WrapNode::new(1);
    tobe.set_left(Some(zero));
    tobe.set_right(Some(two));
    let tobe = BinaryTree { root: Some(tobe) };
    assert_eq!(node, tobe);
    node.add(4);
    assert_ne!(node, tobe)
}

#[test]
fn binary_tree_find_test() {
    let left_child_node = WrapNode::new(1);
    let right_child_node = WrapNode::new(2);
    let mut root = WrapNode::new(0);
    root.set_left(Some(left_child_node.clone()));
    root.set_right(Some(right_child_node.clone()));
    let tree = BinaryTree { root: Some(root) };
    assert!(tree.find(2));
    assert!(!tree.find(3));
}

#[test]
fn binary_tree_add_test() {
    let mut tree = BinaryTree { root: None };
    assert!(tree.add(0));
    assert_eq!(
        tree,
        BinaryTree {
            root: Some(WrapNode::new(0))
        }
    );
    let mut tree = BinaryTree::new(0);
    assert!(tree.add(-2));
    assert!(tree.add(-3));
    assert!(tree.add(-1));
    assert!(tree.add(2));
    assert!(tree.add(1));
    assert!(tree.add(3));
    assert!(!tree.add(1));
    let root = tree.root.as_ref().unwrap();
    assert_eq!(root.value(), 0);
    assert_eq!(root.right().unwrap().value(), 2);
    assert_eq!(root.left().unwrap().value(), -2);
    assert_eq!(root.left().unwrap().left().unwrap().value(), -3);
    assert_eq!(root.left().unwrap().right().unwrap().value(), -1);
    assert_eq!(root.right().unwrap().left().unwrap().value(), 1);
    assert_eq!(root.right().unwrap().right().unwrap().value(), 3);
}

#[test]
fn depth_test() {
    let mut tree = BinaryTree::new(0);
    tree.add(-2);
    tree.add(-3);
    tree.add(-1);
    tree.add(2);
    tree.add(1);
    tree.add(3);
    assert_eq!(tree.depth(0).unwrap(), 0);
    assert_eq!(tree.depth(-2).unwrap(), 1);
    assert_eq!(tree.depth(-3).unwrap(), 2);
    assert_eq!(tree.depth(1).unwrap(), 2);
    assert_eq!(tree.depth(3).unwrap(), 2);
    assert_eq!(tree.depth(7), None);
}

#[test]
fn binary_tree_size_test() {
    let mut tree = BinaryTree::new(0);
    tree.add(-2);
    tree.add(-3);
    tree.add(-1);
    tree.add(2);
    tree.add(1);
    tree.add(3);
    tree.add(3);
    tree.add(3);
    assert_eq!(tree.size(), 7);
}

#[test]
fn binary_tree_remove_test() {
    let mut tree = BinaryTree::new(7);
    assert_eq!(tree.remove(7), Some(7));
    let mut tree = BinaryTree::new(7);
    for k in [3, 1, 5, 4, 6, 11, 9, 8, 13, 12, 14] {
        tree.add(k);
    }
    assert_eq!(tree.remove(11), Some(11));
    let mut tobe = BinaryTree::new(7);
    for k in [3, 1, 5, 4, 6, 12, 9, 8, 13, 14] {
        tobe.add(k);
    }
    assert_eq!(tree, tobe);
    assert_eq!(tree.remove(1), Some(1));
    assert_eq!(tree.remove(9), Some(9));
    assert_eq!(tree.remove(9), None);
    assert!(!tree.find(9));
    assert_eq!(tree.size(), 9);
}

#[test]
fn wrap_node_search_and_rotations() {
    let mut tree = BinaryTree::new(7);
    for k in [3, 1, 5, 11, 9, 13] {
        tree.add(k);
    }
    let root = tree.root.as_ref().unwrap();
    assert_eq!(root.find_last(5).value(), 5);
    assert_eq!(root.find_last(6).value(), 5);
    assert_eq!(root.find_parent(9).unwrap().value(), 11);
    assert!(root.find_parent(7).is_none());
    assert!(root.find(13));
    assert_eq!(root.size(), 7);
    let mut node = root.clone();
    node.rotation_right();
    assert_eq!(node.value(), 3);
    assert_eq!(node.right().unwrap().value(), 7);
    assert_eq!(node.right().unwrap().left().unwrap().value(), 5);
    node.rotation_left();
    assert_eq!(node, *root);
    let mut leaf = WrapNode::new(4);
    assert!(leaf.add_child(WrapNode::new(2)));
    assert!(!leaf.add_child(WrapNode::new(4)));
    assert!(leaf.has_child());
    assert_eq!(leaf.remove(2), Some(2));
    assert_eq!(leaf.remove(4), None);
    leaf.change_value(8);
    assert_eq!(leaf.value(), 8);
    assert!(leaf.add(9));
    assert_eq!(leaf.depth(9), Some(1));
}
