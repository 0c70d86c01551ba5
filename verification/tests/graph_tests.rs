//! The graph store and its algorithms, exercised through the public
//! surface.

use tree_decomposition::{Graph, VertexSet};

fn graph_with(n: usize) -> Graph {
    let mut g = Graph::new();
    for _ in 0..n {
        g.add_vertex();
    }
    g
}

fn set_of(cap: usize, members: &[usize]) -> VertexSet {
    let mut s = VertexSet::new(cap);
    for &m in members {
        s.insert(m);
    }
    s
}

#[test]
fn graph_empty_graph() {
    let graph = Graph::new();
    assert_eq!(vec![0usize; 0], graph.vertices());
    assert_eq!(vec![(0usize, 0usize); 0], graph.edges());
}

#[test]
fn graph_bfs() {
    let mut graph = graph_with(5);
    graph.add_edges(vec![(0, 1), (0, 2), (1, 3), (2, 4)]);
    assert_eq!(vec![0, 1, 2, 3, 4], graph.bfs(0));
}

#[test]
fn graph_dfs() {
    let mut graph = graph_with(5);
    graph.add_edges(vec![(0, 1), (0, 2), (1, 3), (2, 4)]);
    assert_eq!(vec![0, 1, 3, 2, 4], graph.dfs(0));
}

#[test]
fn graph_no_incoming_no_edges() {
    let mut graph = graph_with(5);
    assert_eq!(vec![0, 1, 2, 3, 4], graph.no_incoming());
    graph.add_edge(1, 0);
    assert_eq!(vec![1, 2, 3, 4], graph.no_incoming());
}

#[test]
fn graph_topological_sort() {
    let mut graph = graph_with(5);
    graph.add_edges(vec![(0, 1), (1, 2), (2, 3), (3, 4)]);
    assert_eq!(Some(vec![0, 1, 2, 3, 4]), graph.topological_sort());
}

#[test]
fn graph_is_connected_component() {
    let mut graph = graph_with(3);
    graph.add_edges(vec![(0, 1), (1, 0)]);
    assert_eq!(true, graph.is_connected_component(vec![0, 1]));
    assert_eq!(false, graph.is_connected_component(vec![1, 2]));
    assert_eq!(false, graph.is_connected_component(vec![0, 1, 2]));
    graph.add_edges(vec![(2, 1), (1, 2)]);
    assert_eq!(true, graph.is_connected_component(vec![0, 1, 2]));
    assert_eq!(false, graph.is_connected_component(vec![0, 2]));
}

#[test]
fn graph_is_clique() {
    let mut graph = graph_with(3);
    graph.add_bi_edge(0, 1);
    assert_eq!(true, graph.is_clique(vec![0, 1]));
    assert_eq!(false, graph.is_clique(vec![0, 1, 2]));
    graph.add_bi_edge(1, 2);
    assert_eq!(false, graph.is_clique(vec![0, 1, 2]));
    graph.add_bi_edge(0, 2);
    assert_eq!(true, graph.is_clique(vec![0, 1, 2]));
}

#[test]
fn graph_is_separator() {
    let mut graph = graph_with(3);
    graph.add_edges(vec![(0, 1), (1, 0), (1, 2), (2, 1)]);
    assert_eq!(true, graph.is_separator(&set_of(3, &[1])));
}

#[test]
fn graph_neighbourhood() {
    let mut graph = graph_with(3);
    assert_eq!(vec![0], graph.neighbourhood(&set_of(3, &[0])).to_vec());
    graph.add_bi_edge(0, 1);
    graph.add_bi_edge(1, 2);
    assert_eq!(vec![0, 1], graph.neighbourhood(&set_of(3, &[0])).to_vec());
}

#[test]
fn edge_queries() {
    let mut graph = graph_with(4);
    assert_eq!(0, graph.num_edges());
    graph.add_bi_edge(0, 1);
    graph.add_edge(2, 3);
    assert_eq!(3, graph.num_edges());
    assert!(graph.has_edge(0, 1));
    assert!(graph.has_edge(1, 0));
    assert!(graph.has_edge(2, 3));
    assert!(!graph.has_edge(3, 2));
    assert!(!graph.has_edge(0, 7));
    let mut es = graph.edges();
    es.sort();
    assert_eq!(vec![(0, 1), (1, 0), (2, 3)], es);
    graph.del_edge(1, 0);
    assert!(!graph.has_edge(1, 0));
    assert_eq!(2, graph.num_edges());
    graph.disconnect_vertex(0);
    assert!(!graph.has_edge(0, 1));
    assert_eq!(1, graph.num_edges());
}

#[test]
fn vertex_bookkeeping() {
    let mut graph = Graph::new();
    assert_eq!(0, graph.add_vertex());
    assert_eq!(1, graph.add_vertex());
    assert_eq!(2, graph.num_vertices());
    assert_eq!(2, graph.n());
    assert_eq!(vec![0, 1], graph.vs());
    assert_eq!(vec![0, 1], graph.vertex_set().to_vec());
    assert_eq!(vec![0, 1], graph.vs_set().to_vec());
}

#[test]
fn degree_queries() {
    let mut graph = graph_with(4);
    graph.add_bi_edge(0, 1);
    graph.add_bi_edge(0, 2);
    assert_eq!(vec![1, 2], graph.outgoing(0));
    assert_eq!(vec![0], graph.incoming(1));
    assert_eq!(0, graph.min_degree());
    graph.add_bi_edge(0, 3);
    graph.add_bi_edge(1, 2);
    graph.add_bi_edge(1, 3);
    graph.add_bi_edge(2, 3);
    assert_eq!(3, graph.min_degree());
    assert!(graph.is_symmetric());
    let mut directed = graph_with(2);
    directed.add_edge(0, 1);
    assert!(!directed.is_symmetric());
}

#[test]
fn connected_but_not_maximal_is_no_component() {
    // {0} is connected in its induced subgraph, but the edge 0-1 leaves it.
    let mut graph = graph_with(3);
    graph.add_bi_edge(0, 1);
    assert!(!graph.is_connected_component(vec![0]));
    assert!(graph.is_connected_component(vec![0, 1]));
    assert!(graph.is_connected_component(vec![2]));
}

#[test]
fn connectivity_queries() {
    let mut graph = graph_with(3);
    graph.add_bi_edge(0, 1);
    assert!(!graph.is_connected());
    graph.add_bi_edge(1, 2);
    assert!(graph.is_connected());
}

#[test]
fn topological_sort_cycle_gives_nothing() {
    let mut graph = graph_with(3);
    graph.add_edges(vec![(0, 1), (1, 2), (2, 0)]);
    assert_eq!(None, graph.topological_sort());
}

#[test]
fn components_queries() {
    let mut graph = graph_with(5);
    graph.add_bi_edge(0, 1);
    graph.add_bi_edge(3, 4);
    let comps = graph.components_of(&set_of(5, &[0, 1, 2, 3, 4]));
    let views: Vec<Vec<usize>> = comps.iter().map(|c| c.to_vec()).collect();
    assert_eq!(vec![vec![0, 1], vec![2], vec![3, 4]], views);
}

#[test]
fn full_components_of_a_path() {
    // 0 - 1 - 2: removing the middle vertex leaves two full components.
    let mut graph = graph_with(3);
    graph.add_bi_edge(0, 1);
    graph.add_bi_edge(1, 2);
    let fulls = graph.full_components(&set_of(3, &[1]));
    let views: Vec<Vec<usize>> = fulls.iter().map(|c| c.to_vec()).collect();
    assert_eq!(vec![vec![0], vec![2]], views);
    // Removing an end vertex leaves one component, and it is full.
    let fulls2 = graph.full_components(&set_of(3, &[0]));
    let views2: Vec<Vec<usize>> = fulls2.iter().map(|c| c.to_vec()).collect();
    assert_eq!(vec![vec![1, 2]], views2);
}

#[test]
fn list_components_splits_full_from_non_full() {
    // A path 0 - 1 - 2 - 3 with separator {1, 3}: the component {2} sees
    // both separator vertices, the component {0} sees only vertex 1.
    let mut graph = graph_with(4);
    graph.add_bi_edge(0, 1);
    graph.add_bi_edge(1, 2);
    graph.add_bi_edge(2, 3);
    let (fulls, non_fulls) = graph.list_components(&set_of(4, &[0, 2]), &set_of(4, &[1, 3]));
    let fv: Vec<Vec<usize>> = fulls.iter().map(|c| c.to_vec()).collect();
    let nv: Vec<Vec<usize>> = non_fulls.iter().map(|c| c.to_vec()).collect();
    assert_eq!(vec![vec![2]], fv);
    assert_eq!(vec![vec![0]], nv);
}
