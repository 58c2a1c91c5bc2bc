use ods_tries::arrays::{ArrayDeque, ArrayQueue, ArrayStack};
use ods_tries::interfaces::List;

#[test]
fn iter_test() {
    let mut array_stack = ArrayStack::new();
    array_stack.add(0, "world");
    array_stack.add(0, "hello");
    assert_eq!(array_stack.next(), Some("hello"));
    assert_eq!(array_stack.next(), Some("world"));
    assert_eq!(array_stack.next(), None);
}

#[test]
fn array_stack_remove_test() {
    let mut array_stack = ArrayStack::new();
    array_stack.add(0, "world");
    array_stack.add(0, "hello");
    array_stack.remove(0);
    assert_eq!(
        array_stack,
        ArrayStack {
            n: 1,
            array: vec![Some("world"), None]
        }
    )
}

#[test]
fn array_stack_add_test() {
    let mut array_stack = ArrayStack::new();
    array_stack.add(0, "hello");
    array_stack.add(1, "world");
    array_stack.add(0, "good");
    array_stack.add(1, "bye");
    assert_eq!(
        array_stack,
        ArrayStack {
            n: 4,
            array: vec![Some("good"), Some("bye"), Some("hello"), Some("world")]
        }
    )
}

#[test]
fn array_stack_get_and_size() {
    let mut array_stack = ArrayStack::new();
    assert_eq!(array_stack.size(), 0);
    assert_eq!(array_stack.get(0), None);
    array_stack.add(0, 7);
    array_stack.add(1, 9);
    assert_eq!(array_stack.size(), 2);
    assert_eq!(array_stack.get(1), Some(9));
    assert_eq!(array_stack.get(2), None);
    assert_eq!(array_stack.remove(5), None);
    assert_eq!(array_stack.size(), 2);
}

#[test]
fn array_queue_remove_test() {
    let mut array = ArrayQueue::new();
    array.add("hello");
    array.add("world");
    array.add("goodbye");
    assert_eq!(array.remove().unwrap(), "hello");
    assert_eq!(array.remove().unwrap(), "world");
    assert_eq!(array.remove().unwrap(), "goodbye");
    assert_eq!(array.remove(), None);
}

#[test]
fn array_queue_add_test() {
    let mut array = ArrayQueue::new();
    array.add("hello");
    array.add("world");
    assert_eq!(
        array,
        ArrayQueue {
            n: 2,
            j: 0,
            array: vec![Some("hello"), Some("world")]
        }
    );
    array.add("goodbye");
    array.add("world");
    array.add("thanks");
    assert_eq!(
        array,
        ArrayQueue {
            n: 5,
            j: 0,
            array: vec![
                Some("hello"),
                Some("world"),
                Some("goodbye"),
                Some("world"),
                Some("thanks"),
                None,
                None,
                None
            ]
        }
    );
    array.add("you");
}

#[test]
fn array_queue_wraps_around() {
    let mut q = ArrayQueue::new();
    for i in 0..4 {
        q.add(i);
    }
    assert_eq!(q.remove(), Some(0));
    q.add(4);
    q.add(5);
    for i in 1..6 {
        assert_eq!(q.remove(), Some(i));
    }
    assert_eq!(q.remove(), None);
}

#[test]
fn array_deque_remove_test() {
    let mut deque = ArrayDeque::new();
    deque.add(0, "hello");
    deque.add(1, "world");
    assert_eq!(deque.remove(1).unwrap(), "world");
    assert_eq!(deque.remove(0).unwrap(), "hello");
    assert_eq!(deque.remove(3), None);
}

#[test]
fn array_deque_add_test() {
    let mut deque = ArrayDeque::new();
    deque.add(0, "hello");
    deque.add(1, "world");
    println!("{:?}", deque);
    assert_eq!(deque.get(0).unwrap(), "hello");
    assert_eq!(deque.get(1).unwrap(), "world");
    assert_eq!(deque.get(10), None);
}

#[test]
fn array_deque_get_test() {
    let deque = ArrayDeque {
        n: 1,
        j: 0,
        array: vec![Some("hello"), None, None, None],
    };
    assert_eq!(deque.get(0).unwrap(), "hello");
    assert_eq!(deque.get(10), None);
}

#[test]
fn array_deque_set_test() {
    let mut deque = ArrayDeque::new();
    deque.add(0, "hello");
    deque.add(1, "world");
    deque.set(0, "see");
    deque.set(1, "you");
    assert_eq!(deque.get(0).unwrap(), "see");
    assert_eq!(deque.get(1).unwrap(), "you");
    assert_eq!(deque.get(10), None);
}

#[test]
fn array_deque_inserts_in_middle() {
    let mut deque = ArrayDeque::new();
    for i in 0..5 {
        deque.add(i, (i * 10) as i32);
    }
    deque.add(2, 99);
    let got: Vec<i32> = (0..6).map(|i| deque.get(i).unwrap()).collect();
    assert_eq!(got, vec![0, 10, 99, 20, 30, 40]);
    assert_eq!(deque.remove(0), Some(0));
    assert_eq!(deque.remove(1), Some(99));
    let got: Vec<i32> = (0..4).map(|i| deque.get(i).unwrap()).collect();
    assert_eq!(got, vec![10, 20, 30, 40]);
}

#[test]
fn list_trait_reports_errors_past_the_end() {
    let mut s: ArrayStack<i32> = ArrayStack::new();
    List::add(&mut s, 0, 5);
    List::set(&mut s, 0, 6);
    assert_eq!(List::get(&s, 0), Some(6));
    assert_eq!(List::size(&s), 1);
    assert!(List::remove(&mut s, 3).is_err());
    assert_eq!(List::remove(&mut s, 0), Ok(6));
}
