//! What it means for a bag structure to be a tree decomposition of a graph,
//! and the elimination-order construction that builds candidate
//! decompositions: eliminate a minimum-degree vertex, take it and its
//! current neighbours as a bag, join the neighbours pairwise, and link each
//! bag to the bag of its earliest-eliminated other member.

use vstd::prelude::*;

use crate::graph::{Graph, lemma_adj_bounds};
use crate::reach::reaches;
use crate::vertex_set::VertexSet;

verus! {

broadcast use lemma_adj_bounds;

/// The bag identifiers whose bags hold the vertex `v`.
pub open spec fn bags_with(bags: Seq<Set<int>>, v: int) -> Set<int> {
    Set::new(|i: int| 0 <= i < bags.len() && bags[i].contains(v))
}

/// The bag graph is a tree: connected with one undirected edge fewer than
/// it has bags.  Each undirected edge is stored in both directions, so the
/// directed count of a tree is twice the bag count less one.
pub open spec fn spec_tree_shape(bags: Seq<Set<int>>, bg: Graph) -> bool {
    &&& bags.len() >= 1
    &&& bg.spec_n() == bags.len()
    &&& bg.spec_symmetric()
    &&& bg.spec_connected()
    &&& bg.spec_num_edges() == 2 * (bags.len() - 1)
}

/// Every bag fits the width bound `k`.
pub open spec fn spec_bag_sizes(bags: Seq<Set<int>>, k: int) -> bool {
    forall|i: int| 0 <= i < bags.len() ==> (#[trigger] bags[i]).finite() && bags[i].len() <= k + 1
}

/// Whether some bag holds the vertex `v`.
pub open spec fn spec_covered(bags: Seq<Set<int>>, v: int) -> bool {
    exists|i: int| 0 <= i < bags.len() && #[trigger] bags[i].contains(v)
}

/// Every vertex of the graph appears in some bag.
pub open spec fn spec_vertex_coverage(g: Graph, bags: Seq<Set<int>>) -> bool {
    forall|v: int| 0 <= v < g.spec_n() ==> #[trigger] spec_covered(bags, v)
}

/// Whether some bag holds both `u` and `v`.
pub open spec fn spec_pair_covered(bags: Seq<Set<int>>, u: int, v: int) -> bool {
    exists|i: int| 0 <= i < bags.len() && #[trigger] bags[i].contains(u) && bags[i].contains(v)
}

/// Every edge of the graph lies inside some bag.
pub open spec fn spec_edge_coverage(g: Graph, bags: Seq<Set<int>>) -> bool {
    forall|u: int, v: int| #[trigger] g.spec_adj(u, v) ==> spec_pair_covered(bags, u, v)
}

/// The bags holding any one vertex induce a connected subtree of the bag
/// graph.
pub open spec fn spec_running_intersection(bags: Seq<Set<int>>, bg: Graph) -> bool {
    forall|v: int, i: int, j: int|
        0 <= i < bags.len() && 0 <= j < bags.len() && #[trigger] bags[i].contains(v)
            && #[trigger] bags[j].contains(v) ==> reaches(bg.adj_rel(), bags_with(bags, v), i, j)
}

/// The six properties of a tree decomposition of width at most `k`.
pub open spec fn spec_valid_decomposition(g: Graph, k: int, bags: Seq<Set<int>>, bg: Graph) -> bool {
    &&& spec_tree_shape(bags, bg)
    &&& spec_bag_sizes(bags, k)
    &&& spec_vertex_coverage(g, bags)
    &&& spec_edge_coverage(g, bags)
    &&& spec_running_intersection(bags, bg)
}

/// Builds bags and bag links from a greedy minimum-degree elimination
/// order with fill-in, giving up as soon as a bag would exceed `k + 1`
/// vertices.  The caller validates the result; nothing about the
/// decomposition properties is promised here.
pub(crate) fn elimination_structure(g: &Graph, k: usize) -> (r: Option<
    (Vec<VertexSet>, Vec<(usize, usize)>),
>)
    requires
        g.wf(),
    ensures
        match r {
            Some(s) => {
                &&& s.0@.len() == g.spec_n()
                &&& forall|i: int| 0 <= i < s.0@.len() ==> (#[trigger] s.0@[i]).cap() == g.spec_n()
                &&& forall|i: int|
                    0 <= i < s.1@.len() ==> (#[trigger] s.1@[i]).0 < g.spec_n() && s.1@[i].1
                        < g.spec_n() && s.1@[i].0 != s.1@[i].1
            },
            None => true,
        },
{
    let n = g.num_vertices();
    let mut work = g.duplicate();
    let mut alive: Vec<bool> = vec![true; n];
    // pos[v] is the elimination position of vertex v.
    let mut pos: Vec<usize> = vec![0; n];
    let mut order: Vec<usize> = Vec::new();
    let mut bags: Vec<VertexSet> = Vec::new();
    let mut round: usize = 0;
    while round < n
        invariant
            g.wf(),
            work.wf(),
            n == g.spec_n(),
            work.spec_n() == n,
            alive@.len() == n,
            pos@.len() == n,
            round <= n,
            order@.len() == round,
            bags@.len() == round,
            forall|j: int| 0 <= j < pos@.len() ==> (#[trigger] pos@[j]) < n,
            forall|i: int| 0 <= i < bags@.len() ==> (#[trigger] bags@[i]).cap() == n,
            forall|i: int| 0 <= i < order@.len() ==> (#[trigger] order@[i]) < n,
        decreases n - round,
    {
        // The alive vertex of smallest current degree, smallest identifier
        // first.
        let mut pick: usize = 0;
        let mut pick_deg: usize = 0;
        let mut have = false;
        let mut v: usize = 0;
        while v < n
            invariant
                work.wf(),
                work.spec_n() == n,
                alive@.len() == n,
                v <= n,
                have ==> pick < n,
            decreases n - v,
        {
            if alive[v] {
                let d = work.outgoing(v).len();
                if !have || d < pick_deg {
                    pick = v;
                    pick_deg = d;
                    have = true;
                }
            }
            v = v + 1;
        }
        if !have {
            // No vertex is alive although some rounds remain; give up.
            return None;
        }
        // The bag: the vertex and its current neighbours.
        let nbrs = work.outgoing(pick);
        let mut bag = VertexSet::new(n);
        bag.insert(pick);
        let mut i: usize = 0;
        while i < nbrs.len()
            invariant
                work.wf(),
                work.spec_n() == n,
                pick < n,
                bag.cap() == n,
                i <= nbrs@.len(),
                forall|j: int| 0 <= j < nbrs@.len() ==> (#[trigger] nbrs@[j]) < n,
            decreases nbrs@.len() - i,
        {
            bag.insert(nbrs[i]);
            i = i + 1;
        }
        if bag.len() > k && bag.len() - 1 > k {
            // The bag would exceed the width bound.
            return None;
        }
        // Join the neighbours pairwise (the fill-in), then retire the
        // vertex.
        let mut x: usize = 0;
        while x < nbrs.len()
            invariant
                work.wf(),
                work.spec_n() == n,
                pick < n,
                x <= nbrs@.len(),
                forall|j: int| 0 <= j < nbrs@.len() ==> (#[trigger] nbrs@[j]) < n,
            decreases nbrs@.len() - x,
        {
            let mut y: usize = x + 1;
            while y < nbrs.len()
                invariant
                    work.wf(),
                    work.spec_n() == n,
                    pick < n,
                    x < nbrs@.len(),
                    x < y,
                    y <= nbrs@.len(),
                    forall|j: int| 0 <= j < nbrs@.len() ==> (#[trigger] nbrs@[j]) < n,
                decreases nbrs@.len() - y,
            {
                if nbrs[x] != nbrs[y] {
                    work.add_bi_edge(nbrs[x], nbrs[y]);
                }
                y = y + 1;
            }
            x = x + 1;
        }
        work.disconnect_vertex(pick);
        alive.set(pick, false);
        pos.set(pick, round);
        order.push(pick);
        bags.push(bag);
        round = round + 1;
    }
    // Link each bag to the bag of its earliest-eliminated other member, or
    // to the next bag when it has none.
    let mut links: Vec<(usize, usize)> = Vec::new();
    let mut i: usize = 0;
    while i < n
        invariant
            n == g.spec_n(),
            pos@.len() == n,
            order@.len() == n,
            bags@.len() == n,
            i <= n,
            forall|j: int| 0 <= j < pos@.len() ==> (#[trigger] pos@[j]) < n,
            forall|j: int| 0 <= j < order@.len() ==> (#[trigger] order@[j]) < n,
            forall|j: int| 0 <= j < bags@.len() ==> (#[trigger] bags@[j]).cap() == n,
            forall|j: int|
                0 <= j < links@.len() ==> (#[trigger] links@[j]).0 < n && links@[j].1 < n
                    && links@[j].0 != links@[j].1,
        decreases n - i,
    {
        if i + 1 < n {
            let members = bags[i].to_vec();
            let vi = order[i];
            let mut best_pos: usize = 0;
            let mut found = false;
            let mut m: usize = 0;
            while m < members.len()
                invariant
                    n == g.spec_n(),
                    pos@.len() == n,
                    i < n,
                    m <= members@.len(),
                    bags@.len() == n,
                    bags@[i as int].cap() == n,
                    forall|j: int| 0 <= j < pos@.len() ==> (#[trigger] pos@[j]) < n,
                    forall|j: int|
                        0 <= j < members@.len() ==> bags@[i as int]@.contains(
                            #[trigger] members@[j] as int,
                        ),
                    found ==> i < best_pos < n,
                decreases members@.len() - m,
            {
                let w = members[m];
                proof {
                    bags@[i as int].lemma_wf();
                }
                if w != vi {
                    let pw = pos[w];
                    if pw > i && (!found || pw < best_pos) {
                        best_pos = pw;
                        found = true;
                    }
                }
                m = m + 1;
            }
            let target = if found {
                best_pos
            } else {
                i + 1
            };
            links.push((i, target));
        }
        i = i + 1;
    }
    Some((bags, links))
}


/// An edge of the graph forces a bag of at least two vertices in any
/// valid decomposition, so the width of the decomposition is at least
/// one.
pub proof fn lemma_edge_forces_wide_bag(
    g: Graph,
    k: int,
    bags: Seq<Set<int>>,
    bg: Graph,
    u: int,
    v: int,
)
    requires
        spec_valid_decomposition(g, k, bags, bg),
        g.spec_adj(u, v),
        u != v,
    ensures
        exists|i: int| 0 <= i < bags.len() && (#[trigger] bags[i]).len() >= 2,
{
    assert(spec_pair_covered(bags, u, v));
    let i = choose|i: int|
        0 <= i < bags.len() && #[trigger] bags[i].contains(u) && bags[i].contains(v);
    let pair = Set::<int>::empty().insert(u).insert(v);
    assert(pair.subset_of(bags[i]));
    assert(pair.len() == 2);
    vstd::set_lib::lemma_len_subset(pair, bags[i]);
    assert(bags[i].len() >= 2);
}

/// One bag holding every vertex, alone in the bag graph, is a valid
/// decomposition at any width bound of at least one less than the vertex
/// count.
pub proof fn lemma_single_bag_valid(g: Graph, k: int, bags: Seq<Set<int>>, bg: Graph)
    requires
        bags.len() == 1,
        bags[0] == vstd::set_lib::set_int_range(0, g.spec_n()),
        g.spec_n() >= 1,
        k >= g.spec_n() - 1,
        bg.spec_n() == 1,
        forall|a: int, b: int| !bg.spec_adj(a, b),
    ensures
        spec_valid_decomposition(g, k, bags, bg),
{
    let n = g.spec_n();
    vstd::set_lib::lemma_int_range(0, n);
    assert(bg.spec_connected()) by {
        assert forall|v: int| 0 <= v < 1 implies reaches(bg.adj_rel(), bg.all_vertices(), 0, v) by {
            assert(bg.all_vertices().contains(0int)) by {
                vstd::set_lib::lemma_int_range(0, 1);
            }
            crate::reach::lemma_reaches_refl(bg.adj_rel(), bg.all_vertices(), 0);
        }
    }
    assert(bg.spec_num_edges() == 0) by {
        assert(bg.edge_pairs() =~= Set::<(int, int)>::empty());
    }
    assert(spec_bag_sizes(bags, k)) by {
        assert(bags[0].len() == n);
    }
    assert(spec_vertex_coverage(g, bags)) by {
        assert forall|v: int| 0 <= v < n implies #[trigger] spec_covered(bags, v) by {
            assert(bags[0].contains(v));
        }
    }
    assert(spec_edge_coverage(g, bags)) by {
        assert forall|u: int, v: int|
            #[trigger] g.spec_adj(u, v) implies spec_pair_covered(bags, u, v) by {
            assert(bags[0].contains(u) && bags[0].contains(v));
        }
    }
    assert(spec_running_intersection(bags, bg)) by {
        assert forall|v: int, i: int, j: int|
            0 <= i < bags.len() && 0 <= j < bags.len() && #[trigger] bags[i].contains(v)
                && #[trigger] bags[j].contains(v) implies reaches(
            bg.adj_rel(),
            bags_with(bags, v),
            i,
            j,
        ) by {
            assert(i == 0 && j == 0);
            assert(bags_with(bags, v).contains(0int));
            crate::reach::lemma_reaches_refl(bg.adj_rel(), bags_with(bags, v), 0);
        }
    }
    assert(bg.spec_symmetric());
}

} // verus!
