use ods_tries::tries::arena::Node;
use ods_tries::tries::binary_trie::BinaryTrie;
use ods_tries::tries::bits::{Binary, BinaryLabel, PathNodeOrLeaf};
use ods_tries::tries::hash_table::XFastTrieHashTable;
use ods_tries::tries::links::StrongLinkNode;
use ods_tries::tries::x_fast_trie::XFastTrie;

fn built(keys: &[i32]) -> BinaryTrie<i32> {
    let mut tree = BinaryTrie::new(4);
    for k in keys {
        tree.add(*k);
    }
    tree
}

/// Compares two tries node by node along every path from the root: the key,
/// which children exist, the jump target, the parent and the list neighbours.
fn walk_same(a: &BinaryTrie<i32>, b: &BinaryTrie<i32>, na: StrongLinkNode, nb: StrongLinkNode, path: String) {
    assert_eq!(na.0.is_some(), nb.0.is_some(), "node at {:?}", path);
    if na.0.is_none() {
        return;
    }
    assert_eq!(na.value(a), nb.value(b), "key at {:?}", path);
    assert_eq!(na.jump(a).value(a), nb.jump(b).value(b), "jump at {:?}", path);
    assert_eq!(na.jump(a).0.is_some(), nb.jump(b).0.is_some(), "jump at {:?}", path);
    assert_eq!(na.parent(a).0.is_some(), nb.parent(b).0.is_some(), "parent at {:?}", path);
    assert_eq!(na.prev(a).value(a), nb.prev(b).value(b), "prev at {:?}", path);
    assert_eq!(na.next(a).value(a), nb.next(b).value(b), "next at {:?}", path);
    walk_same(a, b, na.left(a), nb.left(b), format!("{}0", path));
    walk_same(a, b, na.right(a), nb.right(b), format!("{}1", path));
}

fn assert_same_shape(a: &BinaryTrie<i32>, b: &BinaryTrie<i32>) {
    walk_same(a, b, a.root(), b.root(), String::new());
    assert_eq!(a.min_prev().next(a).value(a), b.min_prev().next(b).value(b));
    assert_eq!(a.max_next().prev(a).value(a), b.max_next().prev(b).value(b));
    assert_eq!(a.keys(), b.keys());
}

#[test]
fn binary_trie_remove_test() {
    let mut tree = built(&[3, 9, 1, 0, 15]);
    let tobe = built(&[9, 1, 0, 15]);
    assert_eq!(tree.remove(3), Some(3));
    assert_same_shape(&tree, &tobe);
    let tobe = built(&[1, 0, 15]);
    assert_eq!(tree.remove(9), Some(9));
    assert_same_shape(&tree, &tobe);
    assert_eq!(tree.remove(1), Some(1));
    assert_eq!(tree.remove(0), Some(0));
    assert_eq!(tree.remove(15), Some(15));
    assert_same_shape(&tree, &BinaryTrie::new(4));
    assert_eq!(tree.remove(3), None);
    assert_eq!(tree.remove(9), None);
    assert_eq!(tree.remove(1), None);
    assert_eq!(tree.remove(0), None);
    assert_eq!(tree.remove(15), None);
}

#[test]
fn find_prev_test() {
    let tree = built(&[3, 9, 1, 0, 15]);
    assert_eq!(tree.find_prev(0), None);
    assert_eq!(tree.find_prev(8), Some(3));
    assert_eq!(tree.find_prev(15), Some(9));
    let tree = BinaryTrie::<i32>::new(4);
    assert_eq!(tree.find_prev(0), None);
}

#[test]
fn binary_trie_find_test() {
    let tree = built(&[0, 1, 3, 9, 15]);
    assert!(tree.find(0));
    assert!(tree.find(1));
    assert!(!tree.find(2));
    assert!(tree.find(3));
    assert!(!tree.find(4));
    assert!(!tree.find(5));
    assert!(!tree.find(6));
    assert!(!tree.find(7));
    assert!(!tree.find(8));
    assert!(tree.find(9));
    assert!(!tree.find(10));
    assert!(!tree.find(11));
    assert!(!tree.find(12));
    assert!(!tree.find(13));
    assert!(!tree.find(14));
    assert!(tree.find(15));
}

#[test]
fn calc_binary_test() {
    assert_eq!(Binary::calc_binary(255, 1), Binary::One);
    assert_eq!(Binary::calc_binary(255, 2), Binary::One);
    assert_eq!(Binary::calc_binary(255, 3), Binary::One);
    assert_eq!(Binary::calc_binary(255, 4), Binary::One);
    assert_eq!(Binary::calc_binary(255, 5), Binary::One);
    assert_eq!(Binary::calc_binary(255, 6), Binary::One);
    assert_eq!(Binary::calc_binary(255, 7), Binary::One);
    assert_eq!(Binary::calc_binary(255, 8), Binary::One);
    assert_eq!(Binary::calc_binary(255, 9), Binary::Zero);
    assert_eq!(Binary::calc_binary(0, 1), Binary::Zero);
    assert_eq!(Binary::calc_binary(8, 5), Binary::Zero);
}

#[test]
fn binary_other_and_to_num() {
    assert_eq!(Binary::Zero.other(), Binary::One);
    assert_eq!(Binary::One.other(), Binary::Zero);
    assert_eq!(Binary::Zero.to_num(), 0);
    assert_eq!(Binary::One.to_num(), 1);
}

#[test]
fn node_new_test() {
    let p = PathNodeOrLeaf::<i32>::new_leaf(3);
    assert_eq!(p.value(), Some(3));
    assert_eq!(PathNodeOrLeaf::<i32>::new_path().value(), None);
    let node = Node::<i32>::new_leaf(3);
    assert_eq!(node.value(), Some(3));
    let node = Node::<i32>::new_path_node();
    assert_eq!(node.value(), None);
    assert_eq!(node.children, [None, None]);
}

#[test]
fn scenario_add_then_find_all() {
    let tree = built(&[3, 9, 1, 0, 15]);
    for k in 0..16 {
        assert_eq!(tree.find(k), [0, 1, 3, 9, 15].contains(&k));
    }
    assert_eq!(tree.keys(), vec![0, 1, 3, 9, 15]);
}

#[test]
fn scenario_remove_matches_fresh_build() {
    let mut tree = built(&[3, 9, 1, 0, 15]);
    tree.remove(3);
    for order in [[9, 1, 0, 15], [15, 0, 1, 9], [0, 1, 9, 15]] {
        let other = built(&order);
        assert_same_shape(&tree, &other);
        for k in 0..16 {
            assert_eq!(tree.find(k), other.find(k));
            assert_eq!(tree.find_prev(k as usize), other.find_prev(k as usize));
        }
    }
}

#[test]
fn duplicate_add_is_refused() {
    let mut tree = built(&[5]);
    assert!(!tree.add(5));
    assert_eq!(tree.keys(), vec![5]);
    assert!(tree.add(6));
    assert_eq!(tree.keys(), vec![5, 6]);
}

#[test]
fn predecessor_of_every_absent_key() {
    let present = [2, 3, 7, 8, 12];
    let tree = built(&present);
    for x in 0..16usize {
        let want = present.iter().filter(|k| (**k as usize) < x).max().map(|k| *k as usize);
        assert_eq!(tree.find_prev(x), want);
    }
}

#[test]
fn remove_everything_then_again() {
    let keys = [3, 9, 1, 0, 15];
    let mut tree = built(&keys);
    for k in keys {
        assert_eq!(tree.remove(k), Some(k));
    }
    for k in keys {
        assert_eq!(tree.remove(k), None);
        assert!(!tree.find(k));
    }
    assert_eq!(tree.keys(), Vec::<usize>::new());
    assert!(tree.add(4));
    assert_eq!(tree.keys(), vec![4]);
}

#[test]
fn x_fast_trie_find_test() {
    let mut tree = XFastTrie::new(4);
    for i in 0..16 {
        tree.add(i);
        assert!(tree.find(&i));
    }
    let mut tree = XFastTrie::new(10);
    for i in 0..1000 {
        if i % 2 == 0 {
            tree.add(i);
        }
        if i % 2 == 1 {
            assert!(!tree.find(&i));
        }
    }
}

#[test]
fn x_fast_trie_predecessor_and_remove() {
    let mut tree = XFastTrie::new(4);
    for k in [3, 9, 1, 0, 15] {
        assert!(tree.add(k));
    }
    assert!(!tree.add(9));
    assert_eq!(tree.find_prev(8), Some(3));
    assert_eq!(tree.find_prev(0), None);
    assert_eq!(tree.find_prev(15), Some(9));
    assert_eq!(tree.remove(3), Some(3));
    assert_eq!(tree.find_prev(8), Some(1));
    assert_eq!(tree.remove(3), None);
    assert_eq!(tree.keys(), vec![0, 1, 9, 15]);
}

#[test]
fn binary_label_new_test() {
    let max_depth = 4;
    let label_depth = 2;
    let usized_data = 1;
    let binary_label = BinaryLabel::new(max_depth, label_depth, usized_data);
    let tobe = BinaryLabel {
        label: vec![Binary::Zero, Binary::Zero],
        max_depth,
    };
    assert_eq!(binary_label, tobe);
}

#[test]
fn is_same_test() {
    let max_depth = 4;
    let label_depth = 2;
    let usized_data = 1;
    let binary_label = BinaryLabel::new(max_depth, label_depth, usized_data);
    assert!(binary_label.is_same(label_depth, usized_data));
    assert!(binary_label.is_same(label_depth, 2));
    assert!(binary_label.is_same(label_depth, 3));
    assert!(!binary_label.is_same(label_depth, 5));

    let max_depth = 4;
    let label_depth = 3;
    let usized_data = 1;
    let binary_label = BinaryLabel::new(max_depth, label_depth, usized_data);
    let tobe = BinaryLabel {
        label: vec![Binary::Zero, Binary::Zero, Binary::Zero],
        max_depth,
    };
    assert_eq!(binary_label, tobe);
    assert!(binary_label.is_same(label_depth, usized_data));

    let max_depth = 4;
    let label_depth = 3;
    let usized_data = 15;
    let binary_label = BinaryLabel::new(max_depth, label_depth, usized_data);
    let tobe = BinaryLabel {
        label: vec![Binary::One, Binary::One, Binary::One],
        max_depth,
    };
    assert_eq!(binary_label, tobe);
    assert!(binary_label.is_same(label_depth, usized_data));
}

#[test]
fn hash_table_get_test() {
    let mut hash_table = XFastTrieHashTable::new(4);
    let data = "hello";
    let data2 = "world";
    let data3 = "yeah";
    hash_table.register_binary_labels(1, &1, data);
    hash_table.register_binary_labels(2, &1, data2);
    hash_table.register_binary_labels(3, &1, data3);
    assert_eq!(hash_table.get(1, &1), Some(&data));
    assert_eq!(hash_table.get(2, &1), Some(&data2));
    assert_eq!(hash_table.get(3, &1), Some(&data3));
}

#[test]
fn x_fast_trie_hash_table_register_test() {
    let mut hash_table = XFastTrieHashTable::new(4);
    let (root_left, root_left_left, root_left_left_left, leaf) = (3usize, 4usize, 5usize, 6usize);
    hash_table.register_binary_labels(1, &1, root_left);
    hash_table.register_binary_labels(2, &1, root_left_left);
    hash_table.register_binary_labels(3, &1, root_left_left_left);
    hash_table.register_binary_labels(4, &1, leaf);
    assert_eq!(hash_table.get(1, &1), Some(&root_left));
    assert_eq!(hash_table.get(2, &1), Some(&root_left_left));
    assert_eq!(hash_table.get(3, &1), Some(&root_left_left_left));
    assert_eq!(hash_table.get(4, &1), Some(&leaf));
    assert_eq!(hash_table.get(4, &0), None);
}

#[test]
fn x_fast_trie_hash_table_remove_test() {
    let mut hash_table = XFastTrieHashTable::new(4);
    hash_table.register_binary_labels(1, &1, 3usize);
    hash_table.register_binary_labels(2, &1, 4usize);
    hash_table.register_binary_labels(3, &1, 5usize);
    hash_table.remove(1, &1);
    hash_table.remove(2, &1);
    hash_table.remove(3, &1);
    for depth in 1..=4 {
        assert!(!hash_table.find(depth, &1));
    }
}

#[test]
fn hash_table_find_test() {
    let mut hash_table = XFastTrieHashTable::new(4);
    hash_table.register_binary_labels(1, &1, 3usize);
    hash_table.register_binary_labels(2, &1, 4usize);
    hash_table.register_binary_labels(3, &1, 5usize);
    assert!(hash_table.find(1, &1),);
    assert!(hash_table.find(2, &1),);
    assert!(hash_table.find(1, &5));
    assert!(!hash_table.find(1, &8));
    assert!(hash_table.find(3, &1));
    assert!(!hash_table.find(3, &2));
}


fn at(tree: &BinaryTrie<i32>, path: &str) -> StrongLinkNode {
    let mut node = tree.root();
    for c in path.chars() {
        node = if c == '0' { node.left(tree) } else { node.right(tree) };
    }
    node
}

fn jump_value(tree: &BinaryTrie<i32>, path: &str) -> Option<i32> {
    at(tree, path).jump(tree).value(tree)
}

#[test]
fn binary_trie_add_test() {
    let mut tree = BinaryTrie::new(4);
    tree.add(3);
    assert_eq!(at(&tree, "0011").value(&tree), Some(3));
    assert_eq!(at(&tree, "1").0, None);
    for path in ["", "0", "00", "001"] {
        assert_eq!(jump_value(&tree, path), Some(3));
    }
    assert_eq!(tree.min_prev().next(&tree).value(&tree), Some(3));
    assert_eq!(tree.max_next().prev(&tree).value(&tree), Some(3));

    tree.add(9);
    assert_eq!(at(&tree, "1001").value(&tree), Some(9));
    assert_eq!(at(&tree, "").jump(&tree).0, None);
    for path in ["1", "10", "100"] {
        assert_eq!(jump_value(&tree, path), Some(9));
    }
    assert_eq!(at(&tree, "0011").next(&tree).value(&tree), Some(9));
    assert_eq!(tree.max_next().prev(&tree).value(&tree), Some(9));

    tree.add(1);
    assert_eq!(at(&tree, "0001").value(&tree), Some(1));
    assert_eq!(at(&tree, "00").jump(&tree).0, None);
    assert_eq!(jump_value(&tree, "000"), Some(1));
    assert_eq!(tree.min_prev().next(&tree).value(&tree), Some(1));
    assert_eq!(at(&tree, "0001").next(&tree).value(&tree), Some(3));

    tree.add(0);
    assert_eq!(at(&tree, "0000").value(&tree), Some(0));
    assert_eq!(at(&tree, "000").jump(&tree).0, None);
    assert_eq!(tree.min_prev().next(&tree).value(&tree), Some(0));
    assert_eq!(at(&tree, "0000").next(&tree).value(&tree), Some(1));

    tree.add(15);
    assert_eq!(at(&tree, "1111").value(&tree), Some(15));
    assert_eq!(at(&tree, "1").jump(&tree).0, None);
    assert_eq!(jump_value(&tree, "11"), Some(15));
    assert_eq!(jump_value(&tree, "111"), Some(15));
    assert_eq!(tree.max_next().prev(&tree).value(&tree), Some(15));
    assert_eq!(at(&tree, "1111").prev(&tree).value(&tree), Some(9));
    assert_eq!(at(&tree, "1").get_min_child(&tree).value(&tree), Some(9));
    assert_eq!(at(&tree, "").get_max_child(&tree).value(&tree), Some(15));
    assert_eq!(at(&tree, "0").get_min_child(&tree).value(&tree), Some(0));

    let mut tree_2 = BinaryTrie::new(4);
    for k in [0, 1, 3, 9, 15] {
        tree_2.add(k);
    }
    assert_eq!(tree.keys(), tree_2.keys());
}

#[test]
fn jump_pointers_after_remove() {
    let mut tree = built(&[3, 9, 1, 0, 15]);
    tree.remove(9);
    assert_eq!(at(&tree, "10").0, None);
    assert_eq!(jump_value(&tree, "1"), Some(15));
    tree.remove(15);
    assert_eq!(at(&tree, "1").0, None);
    assert_eq!(jump_value(&tree, ""), Some(3));
    assert_eq!(at(&tree, "0011").parent(&tree).parent(&tree).0, at(&tree, "00").0);
}

#[test]
fn links_write_only_the_trie() {
    let mut tree = built(&[3, 9]);
    let root = tree.root();
    let stray = StrongLinkNode::new_path_node(&mut tree);
    root.set_jump(&mut tree, stray.clone());
    assert_eq!(root.jump(&tree), stray);
    root.remove_jump(&mut tree);
    assert_eq!(root.jump(&tree).0, None);
    root.set_left(&mut tree, StrongLinkNode::new_none());
    assert_eq!(root.left(&tree).0, None);
    assert!(tree.find(3));
    assert!(tree.find(9));
    assert_eq!(tree.find_prev(9), Some(3));
    assert!(tree.add(4));
    assert_eq!(tree.keys(), vec![3, 4, 9]);
    assert_eq!(stray.to_weak().to_node(), stray);
}

fn path_of(k: i32, depth: usize, w: usize) -> String {
    (0..depth).map(|i| if (k >> (w - 1 - i)) & 1 == 1 { '1' } else { '0' }).collect()
}

#[test]
fn x_fast_trie_add_test() {
    let max_depth = 4;
    let mut tree = XFastTrie::new(max_depth);
    let mut added: Vec<i32> = Vec::new();
    for k in [3, 9, 1, 0, 15] {
        assert!(tree.add(k));
        added.push(k);
        let tobe = built(&added);
        assert_same_shape(tree.trie(), &tobe);
        let trie = tree.trie();
        let index = tree.index();
        for depth in 1..=max_depth {
            for x in 0..16 {
                let node = at(trie, &path_of(x, depth, max_depth));
                assert_eq!(index.find(depth, &x), node.0.is_some());
                assert_eq!(index.get(depth, &x).copied(), node.0);
            }
        }
    }
    assert!(!tree.add(9));
    assert_eq!(tree.keys(), vec![0, 1, 3, 9, 15]);
}
