use ods_tries::graphs::{AdjacencyList, AdjacencyMatrix};
use ods_tries::interfaces::Graph;

fn sample() -> AdjacencyList {
    let mut al = AdjacencyList::new(6);
    al.add_edge(0, 1);
    al.add_edge(0, 2);
    al.add_edge(1, 3);
    al.add_edge(1, 4);
    al.add_edge(2, 5);
    al
}

#[test]
fn dfs_test() {
    let al = sample();
    assert_eq!(al.dfs(0), vec![1, 3, 4, 2, 5]);
    assert_eq!(al.dfs(1), vec![3, 4,]);
}

#[test]
fn dfs2_test() {
    let al = sample();
    assert_eq!(al.dfs2(0), vec![1, 2, 5, 3, 4,]);
    assert_eq!(al.dfs2(1), vec![3, 4,]);
}

#[test]
fn can_reach_test() {
    let al = sample();
    assert!(al.can_reach(0, 5));
    assert!(!al.can_reach(5, 1));
    assert!(!al.can_reach(4, 0));
}

#[test]
fn searches_follow_cycles_back_to_the_start() {
    let mut al = AdjacencyList::new(3);
    al.add_edge(0, 1);
    al.add_edge(1, 2);
    al.add_edge(2, 0);
    assert_eq!(al.dfs(0), vec![1, 2, 0]);
    assert_eq!(al.dfs2(0), vec![1, 2, 0]);
    assert!(al.can_reach(2, 1));
    assert!(al.can_reach(1, 1));
}

#[test]
fn adjacency_list_test() {
    let mut al = AdjacencyList::new(3);
    al.add_edge(0, 1);
    al.add_edge(0, 2);
    al.add_edge(2, 1);
    al.add_edge(1, 2);
    assert_eq!(al.out_edges(0), vec![1, 2]);
    assert_eq!(al.in_edges(1), vec![0, 2]);
    assert_eq!(al.in_edges(2), vec![0, 1]);
    assert_eq!(al.out_edges(2), vec![1]);
    assert!(al.has_edge(2, 1));
    al.remove_edge(0, 1);
    al.remove_edge(1, 2);
    assert_eq!(al.out_edges(0), vec![2]);
    assert!(!al.has_edge(1, 2));
}

#[test]
fn adjacency_matrix_test() {
    let mut am = AdjacencyMatrix::new(3);
    am.add_edge(0, 1);
    am.add_edge(0, 2);
    am.add_edge(2, 1);
    am.add_edge(1, 2);
    assert_eq!(am.out_edges(0), vec![1, 2]);
    assert_eq!(am.in_edges(1), vec![0, 2]);
    assert_eq!(am.in_edges(2), vec![0, 1]);
    assert_eq!(am.out_edges(2), vec![1]);
    assert!(am.has_edge(2, 1));
    assert!(!am.has_edge(1, 0));
    am.remove_edge(0, 1);
    assert_eq!(am.out_edges(0), vec![2]);
}
