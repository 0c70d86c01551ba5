//! Tree decompositions: the validator, the builders, and the driver on the
//! standard small graphs.

use tree_decomposition::{Graph, Tree, TreeDecomposition, VertexSet};
use tree_decomposition::{optimal_decomposition, optimal_tree_decomposition};

fn graph_with(n: usize, edges: &[(usize, usize)]) -> Graph {
    let mut g = Graph::new();
    for _ in 0..n {
        g.add_vertex();
    }
    for &(u, v) in edges {
        g.add_bi_edge(u, v);
    }
    g
}

fn set_of(cap: usize, members: &[usize]) -> VertexSet {
    let mut s = VertexSet::new(cap);
    for &m in members {
        s.insert(m);
    }
    s
}

#[test]
fn path_decomposes_at_width_one() {
    let g = graph_with(5, &[(0, 1), (1, 2), (2, 3), (3, 4)]);
    let t = optimal_decomposition(&g).unwrap();
    assert!(t.is_valid_tree());
    assert_eq!(1, t.treewidth());
}

#[test]
fn complete_graph_decomposes_at_width_three() {
    let g = graph_with(4, &[(0, 1), (0, 2), (0, 3), (1, 2), (1, 3), (2, 3)]);
    let t = optimal_decomposition(&g).unwrap();
    assert!(t.is_valid_tree());
    assert_eq!(3, t.treewidth());
}

#[test]
fn tree_decomposes_at_width_one() {
    let g = graph_with(5, &[(0, 1), (0, 2), (1, 3), (2, 4)]);
    assert_eq!(vec![0, 1, 2, 3, 4], g.bfs(0));
    assert_eq!(vec![0, 1, 3, 2, 4], g.dfs(0));
    let t = optimal_decomposition(&g).unwrap();
    assert!(t.is_valid_tree());
    assert_eq!(1, t.treewidth());
}

#[test]
fn triangle_decomposes_at_width_two() {
    let g = graph_with(3, &[(0, 1), (1, 2), (2, 0)]);
    let t = optimal_decomposition(&g).unwrap();
    assert!(t.is_valid_tree());
    assert_eq!(2, t.treewidth());
}

#[test]
fn empty_graph_decomposes_at_width_zero() {
    let g = graph_with(3, &[]);
    assert_eq!(0, g.min_degree());
    let t = optimal_decomposition(&g).unwrap();
    assert!(t.is_valid_tree());
    assert_eq!(0, t.treewidth());
}

#[test]
fn empty_vertex_space_has_no_decomposition() {
    let g = Graph::new();
    assert!(optimal_decomposition(&g).is_none());
    assert!(optimal_tree_decomposition(&g).is_none());
}

#[test]
fn driver_width_is_at_least_the_smallest_degree() {
    let graphs = [
        graph_with(5, &[(0, 1), (1, 2), (2, 3), (3, 4)]),
        graph_with(4, &[(0, 1), (0, 2), (0, 3), (1, 2), (1, 3), (2, 3)]),
        graph_with(3, &[(0, 1), (1, 2), (2, 0)]),
        graph_with(6, &[(0, 1), (1, 2), (2, 3), (3, 4), (4, 5), (5, 0)]),
        graph_with(3, &[]),
    ];
    for g in graphs.iter() {
        let t = optimal_decomposition(g).unwrap();
        assert!(t.is_valid_tree());
        assert!(t.treewidth() >= g.min_degree());
    }
}

#[test]
fn witness_tree_matches_the_decomposition() {
    let g = graph_with(5, &[(0, 1), (1, 2), (2, 3), (3, 4)]);
    let t = optimal_tree_decomposition(&g).unwrap();
    assert!(t.is_valid_tree());
    assert_eq!(1, t.treewidth());
}

#[test]
fn hand_built_chain_of_bags_is_valid() {
    // The path on five vertices with the four bags {0,1}, {1,2}, {2,3},
    // {3,4} linked in a chain.
    let g = graph_with(5, &[(0, 1), (1, 2), (2, 3), (3, 4)]);
    let mut t = TreeDecomposition::new(&g, 1);
    assert_eq!(0, t.add_bag(set_of(5, &[0, 1])));
    assert_eq!(1, t.add_bag(set_of(5, &[1, 2])));
    assert_eq!(2, t.add_bag(set_of(5, &[2, 3])));
    assert_eq!(3, t.add_bag(set_of(5, &[3, 4])));
    t.add_edge(0, 1);
    t.add_edge(1, 2);
    t.add_edge(2, 3);
    assert!(t.is_valid_tree());
    assert_eq!(1, t.treewidth());
    assert_eq!(vec![0, 2], t.neighbour(1));
    assert_eq!(4, t.num_bags());
    assert_eq!(vec![1, 2], t.bag(1));
}

#[test]
fn broken_chains_fail_the_validator() {
    let g = graph_with(5, &[(0, 1), (1, 2), (2, 3), (3, 4)]);
    // A missing link disconnects the bag graph.
    let mut unlinked = TreeDecomposition::new(&g, 1);
    unlinked.add_bag(set_of(5, &[0, 1]));
    unlinked.add_bag(set_of(5, &[1, 2]));
    unlinked.add_bag(set_of(5, &[2, 3]));
    unlinked.add_bag(set_of(5, &[3, 4]));
    unlinked.add_edge(0, 1);
    unlinked.add_edge(2, 3);
    assert!(!unlinked.is_valid_tree());
    // A missing bag leaves an edge of the graph uncovered.
    let mut uncovered = TreeDecomposition::new(&g, 1);
    uncovered.add_bag(set_of(5, &[0, 1]));
    uncovered.add_bag(set_of(5, &[1, 2]));
    uncovered.add_bag(set_of(5, &[3, 4]));
    uncovered.add_edge(0, 1);
    uncovered.add_edge(1, 2);
    assert!(!uncovered.is_valid_tree());
    // Splitting a vertex across two far bags breaks the running
    // intersection.
    let mut split = TreeDecomposition::new(&g, 2);
    split.add_bag(set_of(5, &[0, 1, 2]));
    split.add_bag(set_of(5, &[2, 3]));
    split.add_bag(set_of(5, &[3, 4, 0]));
    split.add_edge(0, 1);
    split.add_edge(1, 2);
    assert!(!split.is_valid_tree());
}

#[test]
fn bag_building_blocks() {
    let g = graph_with(4, &[(0, 1), (1, 2), (2, 3)]);
    let mut t = TreeDecomposition::new(&g, 1);
    t.add_vertex(0);
    t.add_vertex_to_bag(0, 1);
    t.add_vertex_to_bag(1, 1);
    t.add_vertex_to_bag(1, 2);
    t.add_vertex_to_bag(2, 2);
    t.add_vertex_to_bag(2, 3);
    t.add_edge(0, 1);
    t.add_edge(1, 2);
    assert!(t.is_valid_tree());
    assert_eq!(1, t.treewidth());
}

#[test]
fn tree_building_blocks() {
    let g = graph_with(3, &[(0, 1), (1, 2)]);
    let mut t = Tree::new(&g, 1);
    t.add_vertex(0);
    t.add_vertex_to_bag(0, 1);
    t.add_vertex_to_bag(1, 1);
    t.add_vertex_to_bag(1, 2);
    t.add_edge(0, 1);
    assert!(t.is_valid_tree());
    assert_eq!(1, t.treewidth());
    assert_eq!(vec![1], t.neighbour(0));
}
