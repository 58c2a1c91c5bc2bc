use ods_tries::heap::BinaryHeap;

#[test]
fn binary_heap_remove_test() {
    let mut test_node = BinaryHeap {
        array: vec![
            Some(4),
            Some(9),
            Some(6),
            Some(17),
            Some(26),
            Some(8),
            Some(16),
            Some(19),
            Some(69),
            Some(32),
            Some(93),
            Some(55),
            Some(50),
            None,
            None,
        ],
        n: 13,
    };
    assert_eq!(test_node.remove(), Some(4));
    let tobe = BinaryHeap {
        array: vec![
            Some(6),
            Some(9),
            Some(8),
            Some(17),
            Some(26),
            Some(50),
            Some(16),
            Some(19),
            Some(69),
            Some(32),
            Some(93),
            Some(55),
            None,
            None,
            None,
        ],
        n: 12,
    };
    assert_eq!(test_node, tobe);
}

#[test]
fn binary_heap_add_test() {
    let mut test_node = BinaryHeap {
        array: vec![
            Some(4),
            Some(9),
            Some(8),
            Some(17),
            Some(26),
            Some(50),
            Some(16),
            Some(19),
            Some(69),
            Some(32),
            Some(93),
            Some(55),
            None,
            None,
            None,
        ],
        n: 12,
    };
    test_node.add(6);
    let tobe = BinaryHeap {
        array: vec![
            Some(4),
            Some(9),
            Some(6),
            Some(17),
            Some(26),
            Some(8),
            Some(16),
            Some(19),
            Some(69),
            Some(32),
            Some(93),
            Some(55),
            Some(50),
            None,
            None,
        ],
        n: 13,
    };
    assert_eq!(test_node, tobe);
}

#[test]
fn binary_heap_sorts() {
    let mut heap = BinaryHeap::new();
    for x in [5, 3, 9, 1, 7, 3, -2] {
        assert!(heap.add(x));
    }
    let mut out = Vec::new();
    while let Some(x) = heap.remove() {
        out.push(x);
    }
    assert_eq!(out, vec![-2, 1, 3, 3, 5, 7, 9]);
    assert_eq!(heap.remove(), None);
}
