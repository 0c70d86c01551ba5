//! The minimal separator enumerator: soundness, completeness against a
//! brute-force subset scan, and freedom from duplicates.

use tree_decomposition::{Graph, MinimalSeparatorGenerator, VertexSet};

fn graph_with(n: usize, edges: &[(usize, usize)]) -> Graph {
    let mut g = Graph::new();
    for _ in 0..n {
        g.add_vertex();
    }
    for &(u, v) in edges {
        g.add_bi_edge(u, v);
    }
    g
}

fn set_of(cap: usize, members: &[usize]) -> VertexSet {
    let mut s = VertexSet::new(cap);
    for &m in members {
        s.insert(m);
    }
    s
}

/// Every subset of `[0, n)` of size at most `k` that the verified
/// predicate accepts.
fn brute_force_count(g: &Graph, k: usize) -> usize {
    let n = g.num_vertices();
    let mut count = 0;
    for mask in 0usize..(1 << n) {
        let mut s = VertexSet::new(n);
        let mut size = 0;
        for v in 0..n {
            if mask & (1 << v) != 0 {
                s.insert(v);
                size += 1;
            }
        }
        if size <= k && g.is_minimal_separator(&s) {
            count += 1;
        }
    }
    count
}

fn sorted_views(sets: &[VertexSet]) -> Vec<Vec<usize>> {
    let mut views: Vec<Vec<usize>> = sets.iter().map(|s| s.to_vec()).collect();
    views.sort();
    views
}

#[test]
fn path_of_three_has_the_middle_separator() {
    let g = graph_with(3, &[(0, 1), (1, 2)]);
    assert!(g.is_separator(&set_of(3, &[1])));
    let mut gen = MinimalSeparatorGenerator::new(&g, 1);
    let seps = gen.generate();
    assert_eq!(vec![vec![1]], sorted_views(&seps));
}

#[test]
fn separator_means_more_components_after_removal() {
    // Components {0, 1, 2} and {3, 4}: two before any removal.
    let g = graph_with(5, &[(0, 1), (1, 2), (3, 4)]);
    // Removing {1} splits the first component: three components remain.
    assert!(g.is_separator(&set_of(5, &[1])));
    // Removing {1, 3, 4} splits the first component but swallows the
    // second whole: exactly two components remain, no increase.
    assert!(!g.is_separator(&set_of(5, &[1, 3, 4])));
    // Removing {3} only shrinks the second component.
    assert!(!g.is_separator(&set_of(5, &[3])));
    // Removing everything leaves no component at all.
    assert!(!g.is_separator(&set_of(5, &[0, 1, 2, 3, 4])));
}

#[test]
fn empty_graph_has_no_separator() {
    let g = graph_with(3, &[]);
    assert_eq!(0, g.min_degree());
    let mut gen = MinimalSeparatorGenerator::new(&g, 0);
    let seps = gen.generate();
    assert!(seps.is_empty());
}

#[test]
fn path_of_five_has_the_three_cut_vertices() {
    let g = graph_with(5, &[(0, 1), (1, 2), (2, 3), (3, 4)]);
    let mut gen = MinimalSeparatorGenerator::new(&g, 2);
    let seps = gen.generate();
    assert_eq!(vec![vec![1], vec![2], vec![3]], sorted_views(&seps));
}

#[test]
fn cycle_of_four_has_the_two_opposite_pairs() {
    let g = graph_with(4, &[(0, 1), (1, 2), (2, 3), (3, 0)]);
    let mut gen = MinimalSeparatorGenerator::new(&g, 2);
    let seps = gen.generate();
    assert_eq!(vec![vec![0, 2], vec![1, 3]], sorted_views(&seps));
}

#[test]
fn complete_graph_has_no_separator() {
    let g = graph_with(4, &[(0, 1), (0, 2), (0, 3), (1, 2), (1, 3), (2, 3)]);
    let mut gen = MinimalSeparatorGenerator::new(&g, 3);
    let seps = gen.generate();
    assert!(seps.is_empty());
}

#[test]
fn enumeration_is_sound() {
    // Every returned set passes the verified predicate, stays within the
    // bound, and really separates the graph.
    let graphs = [
        graph_with(5, &[(0, 1), (1, 2), (2, 3), (3, 4)]),
        graph_with(5, &[(0, 1), (0, 2), (1, 3), (2, 4)]),
        graph_with(4, &[(0, 1), (1, 2), (2, 3), (3, 0)]),
        graph_with(5, &[(0, 1), (0, 2), (0, 3), (0, 4), (1, 2)]),
    ];
    for g in graphs.iter() {
        for k in 0..g.num_vertices() {
            let mut gen = MinimalSeparatorGenerator::new(g, k);
            let seps = gen.generate();
            for s in seps.iter() {
                assert!(s.to_vec().len() <= k);
                assert!(g.is_minimal_separator(s));
                assert!(g.is_separator(s));
            }
        }
    }
}

#[test]
fn enumeration_is_complete_on_small_graphs() {
    // The count agrees with a brute-force scan over all subsets.
    let graphs = [
        graph_with(3, &[(0, 1), (1, 2)]),
        graph_with(3, &[(0, 1), (1, 2), (2, 0)]),
        graph_with(3, &[]),
        graph_with(4, &[(0, 1), (1, 2), (2, 3), (3, 0)]),
        graph_with(4, &[(0, 1), (0, 2), (0, 3), (1, 2), (1, 3), (2, 3)]),
        graph_with(5, &[(0, 1), (1, 2), (2, 3), (3, 4)]),
        graph_with(5, &[(0, 1), (0, 2), (1, 3), (2, 4)]),
        graph_with(5, &[(0, 1), (0, 2), (0, 3), (0, 4)]),
        graph_with(5, &[(0, 1), (1, 2), (2, 0), (2, 3), (3, 4)]),
        graph_with(6, &[(0, 1), (1, 2), (2, 3), (3, 4), (4, 5), (5, 0)]),
    ];
    for g in graphs.iter() {
        for k in 0..=g.num_vertices() {
            let mut gen = MinimalSeparatorGenerator::new(g, k);
            let seps = gen.generate();
            assert_eq!(
                brute_force_count(g, k),
                seps.len(),
                "graph on {} vertices at bound {}",
                g.num_vertices(),
                k
            );
        }
    }
}

#[test]
fn enumeration_is_duplicate_free() {
    let g = graph_with(6, &[(0, 1), (1, 2), (2, 3), (3, 4), (4, 5), (5, 0), (1, 4)]);
    let mut gen = MinimalSeparatorGenerator::new(&g, 4);
    let seps = gen.generate();
    let views = sorted_views(&seps);
    for w in views.windows(2) {
        assert_ne!(w[0], w[1]);
    }
}
