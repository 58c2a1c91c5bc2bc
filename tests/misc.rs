use ods_tries::binary_easy::{BinarySearchTree, BstNode};
use ods_tries::block_store::{Block, BlockStore};
use ods_tries::hash_tables::chaned_hash_table::ChanedHashTable;
use ods_tries::hash_tables::hash_gen::HashGen;
use ods_tries::interfaces::USet;
use ods_tries::tries::binary_trie::BinaryTrie;
use ods_tries::tries::x_fast_trie::XFastTrie;

#[test]
fn binary_easy_test() {
    let mut v = vec![7, 3, 1, 5, 4, 6, 11, 9, 8, 13, 12, 14];
    let mut tree = BinarySearchTree::new();
    let mut root = BstNode::new(7);
    let mut left = BstNode::new(3);
    let left_left = BstNode::new(1);
    let mut left_right = BstNode::new(5);
    let left_right_left = BstNode::new(4);
    let left_right_right = BstNode::new(6);
    let mut right = BstNode::new(11);
    let mut right_left = BstNode::new(9);
    let right_left_left = BstNode::new(8);
    let mut right_right = BstNode::new(13);
    let right_right_left = BstNode::new(12);
    let right_right_right = BstNode::new(14);
    right_left.left = Some(Box::new(right_left_left));
    right_right.left = Some(Box::new(right_right_left));
    right_right.right = Some(Box::new(right_right_right));
    right.left = Some(Box::new(right_left));
    right.right = Some(Box::new(right_right));
    left_right.left = Some(Box::new(left_right_left));
    left_right.right = Some(Box::new(left_right_right));
    left.right = Some(Box::new(left_right));
    left.left = Some(Box::new(left_left));
    root.left = Some(Box::new(left));
    root.right = Some(Box::new(right));
    for d in &v {
        assert!(tree.add(*d));
    }
    v.reverse();
    for d in v {
        assert!(tree.find(d))
    }
    let tobe = BinarySearchTree { root: Some(root) };
    assert_eq!(tree, tobe);
}

#[test]
fn binary_search_tree_refuses_duplicates() {
    let mut tree = BinarySearchTree::new();
    assert!(tree.add(5));
    assert!(!tree.add(5));
    assert!(tree.find(5));
    assert!(!tree.find(4));
}

#[test]
fn hash_gen_test() {
    let hash_gen = HashGen::new(4102541685, 32, 8);
    assert_eq!(hash_gen.from_usize(42), 30);
}

#[test]
fn hash_gen_hash_uses_key_number() {
    let hash_gen = HashGen::new(4102541685, 32, 8);
    assert_eq!(hash_gen.hash(&42i32), 30);
    assert_eq!(HashGen::new(3, 8, 4).from_usize(100), 2);
}

#[test]
fn block_store_reuses_freed_slots() {
    let mut store = BlockStore::new();
    assert_eq!(store.place_data(10), 0);
    assert_eq!(store.place_block(11), 1);
    store.add_new_block(12);
    assert_eq!(store.block_list_len(), 3);
    store.free_block(1);
    assert_eq!(store.read_block(1), None);
    assert_eq!(store.place_data(20), 1);
    assert_eq!(store.read_block(1).unwrap().data(), 20);
    assert_eq!(store.read_block(1).unwrap().index(), 1);
    store.update_block(0, 30);
    assert_eq!(store.read_block(0), Some(Block::new(0, 30)));
    store.write_block(Block::new(7, 40));
    assert_eq!(store.block_list_len(), 4);
    assert_eq!(store.read_block(3).unwrap().data(), 40);
    assert_eq!(store.read_block(9), None);
}

#[test]
fn chaned_hash_table_test() {
    let mut hash_table = ChanedHashTable::new();
    hash_table.add(0);
    hash_table.add(1);
    hash_table.add(2);
    hash_table.add(3);
    hash_table.add(4);
    hash_table.add(5);
    assert_eq!(hash_table.remove(5), Some(5));
    assert_eq!(hash_table.find(0), true);
    assert_eq!(hash_table.find(1), true);
    assert_eq!(hash_table.find(2), true);
    assert_eq!(hash_table.find(3), true);
    assert_eq!(hash_table.find(10), false);
}

#[test]
fn chaned_hash_table_counts_and_refuses_duplicates() {
    let mut hash_table = ChanedHashTable::new();
    for k in 0..40u64 {
        assert!(hash_table.add(k * 3));
    }
    assert!(!hash_table.add(9));
    assert_eq!(hash_table.size(), 40);
    assert_eq!(hash_table.remove(10), None);
    assert_eq!(hash_table.remove(9), Some(9));
    assert_eq!(hash_table.size(), 39);
    assert!(!hash_table.find(9));
    assert!(hash_table.find(117));
}

#[test]
fn tries_as_sets() {
    let mut trie: BinaryTrie<u64> = BinaryTrie::new(8);
    let mut fast: XFastTrie<u64> = XFastTrie::new(8);
    for k in [200u64, 3, 77, 3] {
        assert_eq!(USet::add(&mut trie, k), USet::add(&mut fast, k));
    }
    assert_eq!(USet::size(&trie), 3);
    assert_eq!(USet::size(&fast), 3);
    assert_eq!(USet::remove(&mut trie, 77), Some(77));
    assert_eq!(USet::remove(&mut fast, 77), Some(77));
    assert!(!USet::find(&trie, 77));
    assert!(USet::find(&fast, 200));
}
