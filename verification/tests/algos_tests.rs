//! The graph algorithms exercised through their short-form entry points
//! (`vs`, `neighbours`, `n`), which answer as the long-form ones do.

use tree_decomposition::{Graph, VertexSet};

fn graph_with(n: usize) -> Graph {
    let mut g = Graph::new();
    for _ in 0..n {
        g.add_vertex();
    }
    g
}

fn set_of(cap: usize, members: &[usize]) -> VertexSet {
    let mut s = VertexSet::new(cap);
    for &m in members {
        s.insert(m);
    }
    s
}

#[test]
fn empty_graph() {
    let graph = Graph::new();
    assert_eq!(vec![0usize; 0], graph.vs());
    assert_eq!(vec![(0usize, 0usize); 0], graph.edges());
}

#[test]
fn algos_bfs() {
    let mut graph = graph_with(5);
    graph.add_edges(vec![(0, 1), (0, 2), (1, 3), (2, 4)]);
    assert_eq!(vec![0, 1, 2, 3, 4], graph.bfs(0));
}

#[test]
fn algos_dfs() {
    let mut graph = graph_with(5);
    graph.add_edges(vec![(0, 1), (0, 2), (1, 3), (2, 4)]);
    assert_eq!(vec![0, 1, 3, 2, 4], graph.dfs(0));
}

#[test]
fn algos_topological_sort() {
    let mut graph = graph_with(5);
    graph.add_edges(vec![(0, 1), (1, 2), (2, 3), (3, 4)]);
    assert_eq!(Some(vec![0, 1, 2, 3, 4]), graph.topological_sort());
}

#[test]
fn algos_no_incoming_no_edges() {
    let mut graph = graph_with(5);
    assert_eq!(vec![0, 1, 2, 3, 4], graph.no_incoming());
    graph.add_edge(1, 0);
    assert_eq!(vec![1, 2, 3, 4], graph.no_incoming());
}

#[test]
fn algos_is_connected_component() {
    let mut graph = graph_with(3);
    graph.add_edges(vec![(0, 1), (1, 0)]);
    assert_eq!(true, graph.is_connected_component(vec![0, 1]));
    assert_eq!(false, graph.is_connected_component(vec![1, 2]));
    assert_eq!(false, graph.is_connected_component(vec![0, 1, 2]));
    graph.add_edges(vec![(2, 1), (1, 2)]);
    assert_eq!(true, graph.is_connected_component(vec![0, 1, 2]));
    assert_eq!(false, graph.is_connected_component(vec![0, 2]));
}

#[test]
fn algos_is_clique() {
    let mut graph = graph_with(3);
    graph.add_bi_edge(0, 1);
    assert_eq!(true, graph.is_clique(vec![0, 1]));
    assert_eq!(false, graph.is_clique(vec![0, 1, 2]));
    graph.add_bi_edge(1, 2);
    assert_eq!(false, graph.is_clique(vec![0, 1, 2]));
    graph.add_bi_edge(0, 2);
    assert_eq!(true, graph.is_clique(vec![0, 1, 2]));
}

#[test]
fn algos_is_separator() {
    let mut graph = graph_with(3);
    graph.add_edges(vec![(0, 1), (1, 0), (1, 2), (2, 1)]);
    assert_eq!(true, graph.is_separator(&set_of(3, &[1])));
}

#[test]
fn algos_neighbourhood() {
    let mut graph = graph_with(3);
    assert_eq!(vec![0], graph.neighbours(&set_of(3, &[0])).to_vec());
    graph.add_bi_edge(0, 1);
    graph.add_bi_edge(1, 2);
    assert_eq!(vec![0, 1], graph.neighbours(&set_of(3, &[0])).to_vec());
}
