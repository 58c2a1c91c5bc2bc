use std::collections::BTreeSet;

use ods_tries::tries::binary_trie::BinaryTrie;
use ods_tries::tries::links::StrongLinkNode;
use ods_tries::tries::x_fast_trie::XFastTrie;

const W: usize = 6;

struct Lcg(u64);

impl Lcg {
    fn next(&mut self) -> u64 {
        self.0 = self.0.wrapping_mul(6364136223846793005).wrapping_add(1442695040888963407);
        self.0 >> 33
    }
}

fn keys_with_prefix(set: &BTreeSet<usize>, depth: usize, prefix: usize) -> Vec<usize> {
    set.iter().copied().filter(|k| k >> (W - depth) == prefix).collect()
}

fn check_node(tree: &BinaryTrie<u64>, set: &BTreeSet<usize>, node: &StrongLinkNode, depth: usize, prefix: usize) {
    let under = keys_with_prefix(set, depth, prefix);
    assert!(!under.is_empty() || depth == 0);
    if depth == W {
        assert_eq!(node.value(tree), Some(prefix as u64));
        return;
    }
    assert_eq!(node.value(tree), None);
    let left = node.left(tree);
    let right = node.right(tree);
    assert_eq!(left.0.is_some(), !keys_with_prefix(set, depth + 1, prefix * 2).is_empty());
    assert_eq!(right.0.is_some(), !keys_with_prefix(set, depth + 1, prefix * 2 + 1).is_empty());
    let jump = node.jump(tree).value(tree).map(|v| v as usize);
    match (left.0.is_some(), right.0.is_some()) {
        (true, true) | (false, false) => assert_eq!(jump, None),
        (false, true) => assert_eq!(jump, under.iter().copied().min()),
        (true, false) => assert_eq!(jump, under.iter().copied().max()),
    }
    if left.0.is_some() {
        assert_eq!(left.parent(tree), *node);
        check_node(tree, set, &left, depth + 1, prefix * 2);
    }
    if right.0.is_some() {
        assert_eq!(right.parent(tree), *node);
        check_node(tree, set, &right, depth + 1, prefix * 2 + 1);
    }
}

fn check_all(tree: &BinaryTrie<u64>, set: &BTreeSet<usize>) {
    let listed: Vec<usize> = set.iter().copied().collect();
    assert_eq!(tree.keys(), listed);
    for x in 0..(1usize << W) {
        assert_eq!(tree.find(x as u64), set.contains(&x));
        assert_eq!(tree.find_prev(x), set.range(..x).next_back().copied());
    }
    check_node(tree, set, &tree.root(), 0, 0);
}

#[test]
fn random_operations_keep_list_shape_and_jumps() {
    let mut rng = Lcg(7);
    let mut tree: BinaryTrie<u64> = BinaryTrie::new(W);
    let mut set = BTreeSet::new();
    for _ in 0..400 {
        let k = (rng.next() % (1 << W)) as usize;
        if rng.next() % 3 == 0 {
            assert_eq!(tree.remove(k as u64), if set.remove(&k) { Some(k as u64) } else { None });
        } else {
            assert_eq!(tree.add(k as u64), set.insert(k));
        }
        check_all(&tree, &set);
    }
}

#[test]
fn adding_twice_changes_nothing() {
    let mut tree: BinaryTrie<u64> = BinaryTrie::new(W);
    for k in [5u64, 17, 40, 63, 0] {
        assert!(tree.add(k));
    }
    let before = tree.keys();
    for k in [5u64, 17, 40, 63, 0] {
        assert!(!tree.add(k));
        assert_eq!(tree.keys(), before);
    }
}

#[test]
fn level_index_follows_the_trie() {
    let mut rng = Lcg(11);
    let mut tree: XFastTrie<u64> = XFastTrie::new(W);
    let mut set = BTreeSet::new();
    for _ in 0..300 {
        let k = (rng.next() % (1 << W)) as usize;
        if rng.next() % 3 == 0 {
            assert_eq!(tree.remove(k as u64), if set.remove(&k) { Some(k as u64) } else { None });
        } else {
            assert_eq!(tree.add(k as u64), set.insert(k));
        }
        let index = tree.index();
        let trie = tree.trie();
        for depth in 1..=W {
            for x in 0..(1usize << W) {
                let expected = set.iter().any(|k| k >> (W - depth) == x >> (W - depth));
                assert_eq!(index.find(depth, &x), expected);
                let mut node = trie.root();
                for i in 0..depth {
                    node = if (x >> (W - 1 - i)) & 1 == 1 { node.right(trie) } else { node.left(trie) };
                }
                assert_eq!(index.get(depth, &x).copied(), node.0);
            }
        }
        let shape: BTreeSet<usize> = set.clone();
        check_node(trie, &shape, &trie.root(), 0, 0);
        for x in 0..(1usize << W) {
            assert_eq!(tree.find(&(x as u64)), set.contains(&x));
            assert_eq!(tree.find_prev(x), set.range(..x).next_back().copied());
        }
    }
}
