use ods_tries::linked_lists::{DLList, Node, SLList};

#[test]
fn dl_list_set_test() {
    let mut list = DLList::new();
    list.add(0, "*****");
    list.add(1, "hello");
    list.add(2, "world");
    list.add(3, "*****");
    list.set(0, "#####");
    assert_eq!(list.get(0).unwrap(), "#####");
    assert_eq!(list.get(1).unwrap(), "hello");
    assert_eq!(list.get(2).unwrap(), "world");
    assert_eq!(list.get(3).unwrap(), "*****");
    assert_eq!(list.get(4), None);
}

#[test]
fn dl_list_get_test() {
    let mut list = DLList::new();
    list.add(0, "*****");
    list.add(1, "hello");
    list.add(2, "world");
    assert_eq!(list.get(0), Some("*****"));
    assert_eq!(list.get(1), Some("hello"));
    assert_eq!(list.get(2), Some("world"));
    assert_eq!(list.get(4), None);
}

#[test]
fn dl_list_remove_test() {
    let mut list = DLList::new();
    list.add(0, "*****");
    list.add(1, "hello");
    list.add(2, "world");
    list.add(3, "*****");
    let remove = list.remove(0);
    assert_eq!(remove.unwrap(), "*****");
    assert_eq!(list.get(0).unwrap(), "hello");
    assert_eq!(list.get(1).unwrap(), "world");
    assert_eq!(list.get(2).unwrap(), "*****");
    assert_eq!(list.get(3), None);
}

#[test]
fn sl_list_add_test() {
    let mut list = SLList::new();
    list.add("hello");
    list.add("world");
    assert_eq!(list.size(), 2);
    assert_eq!(list.to_vec(), vec!["hello", "world"]);
}

#[test]
fn pop_test() {
    let mut list = SLList::new();
    list.push("hello");
    list.push("world");
    assert_eq!(list.pop(), Some("world"));
    assert_eq!(list.size(), 1);
    assert_eq!(list.to_vec(), vec!["hello"]);
}

#[test]
fn push_test() {
    let mut list = SLList::new();
    list.push(1);
    list.push(2);
    assert_eq!(list.size(), 2);
    assert_eq!(list.to_vec(), vec![2, 1]);
}

#[test]
fn sl_list_pop_empty() {
    let mut list: SLList<i32> = SLList::new();
    assert_eq!(list.pop(), None);
}

#[test]
fn node_links() {
    let mut head = Node::new("hello");
    head.set_next(Node::new("world"));
    assert_eq!(head.x, "hello");
    assert_eq!(head.next.as_ref().unwrap().x, "world");
    assert!(head.next.unwrap().next.is_none());
}
