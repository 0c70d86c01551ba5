//! The tree decomposition under construction: bags of graph vertices over
//! an undirected bag graph, the validator for the six decomposition
//! properties, and the driver that searches the width bound upward.

use vstd::prelude::*;
use vstd::set_lib::set_int_range;

use crate::decomp::{
    elimination_structure, lemma_single_bag_valid, spec_bag_sizes, spec_covered,
    spec_edge_coverage,
    spec_pair_covered, spec_running_intersection, spec_tree_shape, spec_valid_decomposition,
    spec_vertex_coverage,
    bags_with,
};
use crate::graph::{Graph, MAX_N, lemma_adj_bounds, lemma_deg_bound, lemma_wf_bounds, pair_mem};
use crate::reach::{
    lemma_reach_set_contains, lemma_reaches_refl, lemma_reaches_sym, lemma_reaches_trans,
    reach_set, reaches, symmetric_on,
};
use crate::vertex_set::VertexSet;

verus! {

broadcast use lemma_adj_bounds;

/// Bags of graph vertices over an undirected bag graph, together with the
/// graph being decomposed and the width bound the bags must meet.
pub struct TreeDecomposition {
    graph: Graph,
    treewidth: usize,
    bags: Vec<VertexSet>,
    edges: Graph,
}

impl TreeDecomposition {
    /// The graph being decomposed.
    pub closed spec fn spec_graph(&self) -> Graph {
        self.graph
    }

    /// The width bound.
    pub closed spec fn spec_k(&self) -> int {
        self.treewidth as int
    }

    /// The bags, as mathematical sets.
    pub closed spec fn bags_view(&self) -> Seq<Set<int>> {
        Seq::new(self.bags@.len(), |i: int| self.bags@[i]@)
    }

    /// The bag graph.
    pub closed spec fn bag_graph(&self) -> Graph {
        self.edges
    }

    /// The structural invariant: both graphs well formed, the bag graph
    /// undirected with one node per bag, every bag over the vertex space.
    pub closed spec fn wf(&self) -> bool {
        &&& self.graph.wf()
        &&& self.edges.wf()
        &&& self.edges.spec_symmetric()
        &&& self.edges.spec_n() == self.bags@.len()
        &&& forall|i: int|
            0 <= i < self.bags@.len() ==> (#[trigger] self.bags@[i]).cap() == self.graph.spec_n()
    }

    /// Whether the structure is a tree decomposition of its graph within
    /// its width bound.
    pub open spec fn valid(&self) -> bool {
        spec_valid_decomposition(self.spec_graph(), self.spec_k(), self.bags_view(), self.bag_graph())
    }

    /// An empty decomposition of the graph for the width bound.
    pub fn new(graph: &Graph, treewidth: usize) -> (r: Self)
        requires
            graph.wf(),
        ensures
            r.wf(),
            r.spec_graph().spec_n() == graph.spec_n(),
            forall|u: int, v: int| r.spec_graph().spec_adj(u, v) == graph.spec_adj(u, v),
            graph.spec_symmetric() ==> r.spec_graph().spec_symmetric(),
            r.spec_k() == treewidth,
            r.bags_view().len() == 0,
    {
        let g = graph.duplicate();
        let r = TreeDecomposition { graph: g, treewidth, bags: Vec::new(), edges: Graph::new() };
        proof {
            if graph.spec_symmetric() {
                assert forall|u: int, v: int|
                    #[trigger] r.spec_graph().spec_adj(u, v) implies r.spec_graph().spec_adj(
                    v,
                    u,
                ) by {
                    assert(graph.spec_adj(u, v));
                }
            }
            assert(r.bags_view() =~= Seq::<Set<int>>::empty());
        }
        r
    }

    /// The next free bag identifier.
    fn next_bag_id(&self) -> (r: usize)
        ensures
            r == self.bags_view().len(),
    {
        self.bags.len()
    }

    /// Append a bag and give it a node of the bag graph; its identifier
    /// comes back.
    pub fn add_bag(&mut self, bag: VertexSet) -> (r: usize)
        requires
            old(self).wf(),
            bag.cap() == old(self).spec_graph().spec_n(),
            old(self).bags_view().len() < MAX_N,
        ensures
            final(self).wf(),
            final(self).spec_graph() == old(self).spec_graph(),
            final(self).spec_k() == old(self).spec_k(),
            r == old(self).bags_view().len(),
            final(self).bags_view() == old(self).bags_view().push(bag@),
            final(self).bag_graph().spec_n() == old(self).bag_graph().spec_n() + 1,
            forall|a: int, b: int|
                final(self).bag_graph().spec_adj(a, b) == (old(self).bag_graph().spec_adj(a, b)
                    && a != r && b != r),
    {
        let id = self.bags.len();
        self.bags.push(bag);
        self.edges.add_vertex();
        proof {
            assert(final(self).bags_view() =~= old(self).bags_view().push(
                final(self).bags@[id as int]@,
            ));
        }
        id
    }

    /// Put a single vertex in a fresh bag.
    pub fn add_vertex(&mut self, vertex: usize)
        requires
            old(self).wf(),
            vertex < old(self).spec_graph().spec_n(),
            old(self).bags_view().len() < MAX_N,
        ensures
            final(self).wf(),
            final(self).spec_graph() == old(self).spec_graph(),
            final(self).spec_k() == old(self).spec_k(),
            final(self).bags_view() == old(self).bags_view().push(
                Set::<int>::empty().insert(vertex as int),
            ),
            final(self).bag_graph().spec_n() == old(self).bag_graph().spec_n() + 1,
    {
        let n = self.graph.num_vertices();
        let mut bag = VertexSet::new(n);
        bag.insert(vertex);
        proof {
            assert(bag@ =~= Set::<int>::empty().insert(vertex as int));
        }
        self.add_bag(bag);
    }

    /// Put a vertex in the named bag, creating the bag when the identifier
    /// is the next free one.
    pub fn add_vertex_to_bag(&mut self, bag_id: usize, vertex: usize)
        requires
            old(self).wf(),
            vertex < old(self).spec_graph().spec_n(),
            bag_id <= old(self).bags_view().len(),
            old(self).bags_view().len() < MAX_N,
        ensures
            final(self).wf(),
            final(self).spec_graph() == old(self).spec_graph(),
            final(self).spec_k() == old(self).spec_k(),
            bag_id < old(self).bags_view().len() ==> final(self).bags_view() == old(
                self,
            ).bags_view().update(bag_id as int, old(self).bags_view()[bag_id as int].insert(
                vertex as int,
            )) && final(self).bag_graph() == old(self).bag_graph(),
            bag_id == old(self).bags_view().len() ==> final(self).bags_view() == old(
                self,
            ).bags_view().push(Set::<int>::empty().insert(vertex as int)),
    {
        if bag_id < self.bags.len() {
            let b = &mut self.bags[bag_id];
            b.insert(vertex);
            proof {
                assert(final(self).bags_view() =~= old(self).bags_view().update(
                    bag_id as int,
                    old(self).bags_view()[bag_id as int].insert(vertex as int),
                ));
            }
        } else {
            self.add_vertex(vertex);
        }
    }

    /// Join two bags of the tree, in both directions.
    pub fn add_edge(&mut self, u: usize, v: usize)
        requires
            old(self).wf(),
            u < old(self).bags_view().len(),
            v < old(self).bags_view().len(),
            u != v,
        ensures
            final(self).wf(),
            final(self).spec_graph() == old(self).spec_graph(),
            final(self).spec_k() == old(self).spec_k(),
            final(self).bags_view() == old(self).bags_view(),
            forall|a: int, b: int|
                final(self).bag_graph().spec_adj(a, b) == (old(self).bag_graph().spec_adj(a, b)
                    || (a == u && b == v) || (a == v && b == u)),
    {
        self.edges.add_bi_edge(u, v);
        proof {
            assert forall|a: int, b: int|
                #[trigger] self.edges.spec_adj(a, b) implies self.edges.spec_adj(b, a) by {}
        }
    }

    /// The bags joined to the named bag, in ascending order.
    pub fn neighbour(&self, bag: usize) -> (r: Vec<usize>)
        requires
            self.wf(),
            bag < self.bags_view().len(),
        ensures
            forall|a: int, b: int| 0 <= a < b < r@.len() ==> r@[a] < r@[b],
            forall|a: int|
                0 <= a < r@.len() ==> self.bag_graph().spec_adj(bag as int, r@[a] as int),
            forall|b: usize| self.bag_graph().spec_adj(bag as int, b as int) ==> r@.contains(b),
    {
        self.edges.outgoing(bag)
    }

    /// One less than the size of the largest bag.
    pub fn treewidth(&self) -> (r: usize)
        requires
            self.wf(),
            exists|i: int|
                0 <= i < self.bags_view().len() && (#[trigger] self.bags_view()[i]).len() >= 1,
        ensures
            exists|i: int|
                0 <= i < self.bags_view().len() && (#[trigger] self.bags_view()[i]).len() == r + 1,
            forall|i: int|
                0 <= i < self.bags_view().len() ==> (#[trigger] self.bags_view()[i]).len() <= r + 1,
    {
        let mut max: usize = 0;
        let mut i: usize = 0;
        while i < self.bags.len()
            invariant
                self.wf(),
                i <= self.bags@.len(),
                max == 0 ==> forall|j: int|
                    0 <= j < i ==> (#[trigger] self.bags_view()[j]).len() == 0,
                max > 0 ==> exists|j: int|
                    0 <= j < i && (#[trigger] self.bags_view()[j]).len() == max,
                forall|j: int| 0 <= j < i ==> (#[trigger] self.bags_view()[j]).len() <= max,
            decreases self.bags@.len() - i,
        {
            let l = self.bags[i].len();
            proof {
                assert(self.bags_view()[i as int] == self.bags@[i as int]@);
            }
            if l > max {
                max = l;
            }
            i = i + 1;
        }
        proof {
            if max == 0 {
                let j = choose|j: int|
                    0 <= j < self.bags_view().len() && (#[trigger] self.bags_view()[j]).len() >= 1;
                assert(false);
            }
        }
        max - 1
    }
}


impl TreeDecomposition {
    /// Whether bag `0` reaches every bag of the bag graph.
    fn is_connected(&self) -> (r: bool)
        requires
            self.wf(),
            self.bags_view().len() >= 1,
        ensures
            r == self.bag_graph().spec_connected(),
    {
        self.edges.is_connected()
    }

    /// Whether the bag graph has exactly one undirected edge fewer than it
    /// has bags; together with connectedness this makes it a tree.
    fn no_cycles(&self) -> (r: bool)
        requires
            self.wf(),
            self.bags_view().len() >= 1,
        ensures
            r == (self.bag_graph().spec_num_edges() == 2 * (self.bags_view().len() - 1)),
    {
        proof {
            lemma_wf_bounds(&self.edges);
        }
        let e = self.edges.num_edges();
        e == 2 * (self.bags.len() - 1)
    }

    /// Whether every bag fits the width bound.
    fn valid_bag_sizes(&self) -> (r: bool)
        requires
            self.wf(),
        ensures
            r == spec_bag_sizes(self.bags_view(), self.spec_k()),
    {
        let mut i: usize = 0;
        while i < self.bags.len()
            invariant
                self.wf(),
                i <= self.bags@.len(),
                forall|j: int|
                    0 <= j < i ==> (#[trigger] self.bags_view()[j]).finite()
                        && self.bags_view()[j].len() <= self.spec_k() + 1,
            decreases self.bags@.len() - i,
        {
            let l = self.bags[i].len();
            proof {
                self.bags@[i as int].lemma_wf();
                assert(self.bags_view()[i as int] == self.bags@[i as int]@);
            }
            if l > 0 && l - 1 > self.treewidth {
                proof {
                    assert(self.bags_view()[i as int].len() > self.spec_k() + 1);
                }
                return false;
            }
            i = i + 1;
        }
        true
    }

    /// Whether every graph vertex appears in some bag.
    fn no_missing_vertex(&self) -> (r: bool)
        requires
            self.wf(),
        ensures
            r == spec_vertex_coverage(self.spec_graph(), self.bags_view()),
    {
        let n = self.graph.num_vertices();
        let mut v: usize = 0;
        while v < n
            invariant
                self.wf(),
                n == self.spec_graph().spec_n(),
                v <= n,
                forall|w: int| 0 <= w < v ==> #[trigger] spec_covered(self.bags_view(), w),
            decreases n - v,
        {
            let mut i: usize = 0;
            let mut hit = false;
            while i < self.bags.len() && !hit
                invariant
                    self.wf(),
                    v < n,
                    n == self.spec_graph().spec_n(),
                    i <= self.bags@.len(),
                    hit ==> spec_covered(self.bags_view(), v as int),
                    !hit ==> forall|j: int|
                        0 <= j < i ==> !(#[trigger] self.bags_view()[j]).contains(v as int),
                decreases self.bags@.len() - i + (if hit { 0int } else { 1int }),
            {
                if self.bags[i].contains(v) {
                    proof {
                        assert(self.bags_view()[i as int].contains(v as int));
                    }
                    hit = true;
                } else {
                    i = i + 1;
                }
            }
            if !hit {
                proof {
                    assert(!spec_covered(self.bags_view(), v as int)) by {
                        if spec_covered(self.bags_view(), v as int) {
                            let j = choose|j: int|
                                0 <= j < self.bags_view().len()
                                    && #[trigger] self.bags_view()[j].contains(v as int);
                        }
                    }
                }
                return false;
            }
            v = v + 1;
        }
        true
    }

    /// Whether every graph edge lies inside some bag.
    fn no_missing_edge(&self) -> (r: bool)
        requires
            self.wf(),
        ensures
            r == spec_edge_coverage(self.spec_graph(), self.bags_view()),
    {
        let es = self.graph.edges();
        let mut k: usize = 0;
        while k < es.len()
            invariant
                self.wf(),
                forall|j: int|
                    0 <= j < es@.len() ==> self.spec_graph().spec_adj(
                        (#[trigger] es@[j]).0 as int,
                        es@[j].1 as int,
                    ),
                forall|u: int, v: int|
                    #[trigger] self.spec_graph().spec_adj(u, v) ==> pair_mem(es@, u, v),
                k <= es@.len(),
                forall|j: int|
                    0 <= j < k ==> spec_pair_covered(
                        self.bags_view(),
                        (#[trigger] es@[j]).0 as int,
                        es@[j].1 as int,
                    ),
            decreases es@.len() - k,
        {
            let (u, v) = es[k];
            let mut i: usize = 0;
            let mut hit = false;
            while i < self.bags.len() && !hit
                invariant
                    self.wf(),
                    k < es@.len(),
                    (u, v) == es@[k as int],
                    i <= self.bags@.len(),
                    hit ==> spec_pair_covered(self.bags_view(), u as int, v as int),
                    !hit ==> forall|j: int|
                        0 <= j < i ==> !((#[trigger] self.bags_view()[j]).contains(u as int)
                            && self.bags_view()[j].contains(v as int)),
                decreases self.bags@.len() - i + (if hit { 0int } else { 1int }),
            {
                if self.bags[i].contains(u) && self.bags[i].contains(v) {
                    proof {
                        assert(self.bags_view()[i as int].contains(u as int)
                            && self.bags_view()[i as int].contains(v as int));
                    }
                    hit = true;
                } else {
                    i = i + 1;
                }
            }
            if !hit {
                proof {
                    assert(self.spec_graph().spec_adj(u as int, v as int));
                    if spec_pair_covered(self.bags_view(), u as int, v as int) {
                        let j = choose|j: int|
                            0 <= j < self.bags_view().len()
                                && #[trigger] self.bags_view()[j].contains(u as int)
                                && self.bags_view()[j].contains(v as int);
                        assert(false);
                    }
                }
                return false;
            }
            k = k + 1;
        }
        proof {
            assert forall|u: int, v: int|
                #[trigger] self.spec_graph().spec_adj(u, v) implies spec_pair_covered(
                self.bags_view(),
                u,
                v,
            ) by {
                assert(pair_mem(es@, u, v));
                let j = choose|j: int|
                    0 <= j < es@.len() && (#[trigger] es@[j]).0 == u && es@[j].1 == v;
                assert(spec_pair_covered(self.bags_view(), es@[j].0 as int, es@[j].1 as int));
            }
        }
        true
    }

    /// Whether, for every vertex, the bags holding it are mutually
    /// reachable through bags holding it.
    fn satisfies_connectivity(&self) -> (r: bool)
        requires
            self.wf(),
        ensures
            r == spec_running_intersection(self.bags_view(), self.bag_graph()),
    {
        let n = self.graph.num_vertices();
        let nb = self.bags.len();
        let ghost adj = self.edges.adj_rel();
        let mut v: usize = 0;
        while v < n
            invariant
                self.wf(),
                n == self.spec_graph().spec_n(),
                nb == self.bags@.len(),
                adj == self.bag_graph().adj_rel(),
                v <= n,
                forall|w: int, i: int, j: int|
                    0 <= w < v && 0 <= i < self.bags_view().len() && 0 <= j
                        < self.bags_view().len() && #[trigger] self.bags_view()[i].contains(w)
                        && #[trigger] self.bags_view()[j].contains(w) ==> reaches(
                        adj,
                        bags_with(self.bags_view(), w),
                        i,
                        j,
                    ),
            decreases n - v,
        {
            // The bags holding v.
            let mut bw = VertexSet::new(nb);
            let mut first: usize = 0;
            let mut any = false;
            let mut i: usize = 0;
            while i < nb
                invariant
                    self.wf(),
                    nb == self.bags@.len(),
                    v < n,
                    n == self.spec_graph().spec_n(),
                    bw.cap() == nb,
                    i <= nb,
                    any ==> first < nb && self.bags_view()[first as int].contains(v as int),
                    !any ==> forall|j: int|
                        0 <= j < i ==> !(#[trigger] self.bags_view()[j]).contains(v as int),
                    forall|j: int|
                        bw@.contains(j) <==> (0 <= j < i && self.bags_view()[j].contains(
                            v as int,
                        )),
                decreases nb - i,
            {
                if self.bags[i].contains(v) {
                    proof {
                        assert(self.bags_view()[i as int].contains(v as int));
                    }
                    bw.insert(i);
                    if !any {
                        first = i;
                        any = true;
                    }
                } else {
                    proof {
                        assert(!self.bags_view()[i as int].contains(v as int));
                    }
                }
                i = i + 1;
            }
            proof {
                assert(bw@ =~= bags_with(self.bags_view(), v as int));
            }
            if any {
                let m = self.edges.reach_mask(&bw, first);
                let mut j: usize = 0;
                while j < nb
                    invariant
                        self.wf(),
                        nb == self.bags@.len(),
                        v < n,
                        n == self.spec_graph().spec_n(),
                        adj == self.bag_graph().adj_rel(),
                        bw.cap() == nb,
                        bw@ == bags_with(self.bags_view(), v as int),
                        first < nb,
                        bw@.contains(first as int),
                        m@ == reach_set(adj, bw@, first as int),
                        j <= nb,
                        forall|i2: int|
                            0 <= i2 < j && #[trigger] self.bags_view()[i2].contains(v as int)
                                ==> reaches(adj, bw@, first as int, i2),
                    decreases nb - j,
                {
                    if self.bags[j].contains(v) && !m.contains(j) {
                        proof {
                            assert(self.bags_view()[j as int].contains(v as int));
                            assert(bw@.contains(j as int));
                            lemma_reach_set_contains(adj, bw@, first as int, j as int);
                            assert(!reaches(adj, bw@, first as int, j as int));
                            lemma_reaches_refl(adj, bw@, first as int);
                        }
                        return false;
                    }
                    proof {
                        if self.bags_view()[j as int].contains(v as int) {
                            lemma_reach_set_contains(adj, bw@, first as int, j as int);
                        }
                    }
                    j = j + 1;
                }
                proof {
                    // Mutual reachability follows from reachability out of
                    // the first bag, the bag graph being undirected.
                    assert forall|i2: int, j2: int|
                        0 <= i2 < self.bags_view().len() && 0 <= j2 < self.bags_view().len()
                            && #[trigger] self.bags_view()[i2].contains(v as int)
                            && #[trigger] self.bags_view()[j2].contains(v as int) implies reaches(
                        adj,
                        bw@,
                        i2,
                        j2,
                    ) by {
                        assert(symmetric_on(adj, bw@)) by {
                            assert forall|x: int, y: int|
                                bw@.contains(x) && bw@.contains(y) && #[trigger] adj(x, y)
                                implies adj(y, x) by {
                                assert(self.edges.spec_adj(x, y));
                            }
                        }
                        assert(reaches(adj, bw@, first as int, i2));
                        assert(reaches(adj, bw@, first as int, j2));
                        lemma_reaches_sym(adj, bw@, first as int, i2);
                        lemma_reaches_trans(adj, bw@, i2, first as int, j2);
                    }
                }
            } else {
                proof {
                    assert forall|i2: int, j2: int|
                        0 <= i2 < self.bags_view().len() && 0 <= j2 < self.bags_view().len()
                            && #[trigger] self.bags_view()[i2].contains(v as int)
                            && #[trigger] self.bags_view()[j2].contains(v as int) implies reaches(
                        adj,
                        bags_with(self.bags_view(), v as int),
                        i2,
                        j2,
                    ) by {
                        assert(!self.bags_view()[i2].contains(v as int));
                    }
                }
            }
            v = v + 1;
        }
        proof {
            // A vertex outside the graph lies in no bag, so the property is
            // vacuous for it.
            assert forall|w: int, i: int, j: int|
                0 <= i < self.bags_view().len() && 0 <= j < self.bags_view().len()
                    && #[trigger] self.bags_view()[i].contains(w)
                    && #[trigger] self.bags_view()[j].contains(w) implies reaches(
                adj,
                bags_with(self.bags_view(), w),
                i,
                j,
            ) by {
                self.bags@[i].lemma_wf();
                assert(0 <= w < n);
            }
        }
        true
    }

    /// Whether the structure satisfies all six tree decomposition
    /// properties for its graph and width bound.
    pub fn is_valid_tree(&self) -> (r: bool)
        requires
            self.wf(),
            self.bags_view().len() >= 1,
        ensures
            r == self.valid(),
    {
        let r = self.is_connected() && self.no_cycles() && self.valid_bag_sizes()
            && self.no_missing_vertex() && self.no_missing_edge()
            && self.satisfies_connectivity();
        proof {
            lemma_wf_bounds(&self.edges);
            if r {
                assert(spec_tree_shape(self.bags_view(), self.bag_graph()));
            }
        }
        r
    }
}


impl TreeDecomposition {
    /// Build a decomposition of width at most `k`: the whole vertex space
    /// in one bag when `k` allows it, else a candidate from a greedy
    /// elimination order, handed back only when the validator accepts it.
    /// Success is owed whenever `k` is at least one less than the vertex
    /// count of a nonempty graph, and the result is then the one bag of
    /// every vertex over an edgeless bag graph.
    pub fn decompose(&self, k: usize) -> (r: Option<TreeDecomposition>)
        requires
            self.wf(),
        ensures
            match r {
                Some(t) => {
                    &&& t.wf()
                    &&& t.valid()
                    &&& t.spec_k() == k
                    &&& t.spec_graph().spec_n() == self.spec_graph().spec_n()
                    &&& forall|u: int, v: int|
                        t.spec_graph().spec_adj(u, v) == self.spec_graph().spec_adj(u, v)
                },
                None => true,
            },
            self.spec_graph().spec_n() >= 1 && k + 1 >= self.spec_graph().spec_n() ==> (
            r.is_some() && r.unwrap().bags_view().len() == 1 && r.unwrap().bags_view()[0]
                == set_int_range(0, self.spec_graph().spec_n())
                && r.unwrap().bag_graph().spec_num_edges() == 0),
    {
        let n = self.graph.num_vertices();
        if n == 0 {
            return None;
        }
        proof {
            lemma_wf_bounds(&self.graph);
        }
        if k >= n - 1 {
            // Every vertex fits in one bag within this bound.
            let mut t = TreeDecomposition::new(&self.graph, k);
            let all = self.graph.vertex_set();
            t.add_bag(all);
            proof {
                assert(t.bags_view()[0] == set_int_range(0, self.spec_graph().spec_n() as int));
                lemma_single_bag_valid(t.spec_graph(), t.spec_k(), t.bags_view(), t.bag_graph());
            }
            return Some(t);
        }
        let built = elimination_structure(&self.graph, k);
        match built {
            None => None,
            Some((bags, links)) => {
                let mut t = TreeDecomposition::new(&self.graph, k);
                let mut i: usize = 0;
                while i < bags.len()
                    invariant
                        t.wf(),
                        self.wf(),
                        n == self.spec_graph().spec_n(),
                        n >= 1,
                        n <= MAX_N,
                        t.spec_graph().spec_n() == n,
                        forall|u: int, v: int|
                            t.spec_graph().spec_adj(u, v) == self.spec_graph().spec_adj(u, v),
                        t.spec_k() == k,
                        bags@.len() == n,
                        forall|j: int| 0 <= j < bags@.len() ==> (#[trigger] bags@[j]).cap() == n,
                        i <= n,
                        t.bags_view().len() == i,
                    decreases n - i,
                {
                    t.add_bag(bags[i].duplicate());
                    i = i + 1;
                }
                let mut j: usize = 0;
                while j < links.len()
                    invariant
                        t.wf(),
                        self.wf(),
                        n == self.spec_graph().spec_n(),
                        n >= 1,
                        t.spec_graph().spec_n() == n,
                        forall|u: int, v: int|
                            t.spec_graph().spec_adj(u, v) == self.spec_graph().spec_adj(u, v),
                        t.spec_k() == k,
                        t.bags_view().len() == n,
                        j <= links@.len(),
                        forall|m: int|
                            0 <= m < links@.len() ==> (#[trigger] links@[m]).0 < n && links@[m].1
                                < n && links@[m].0 != links@[m].1,
                    decreases links@.len() - j,
                {
                    let (a, b) = links[j];
                    t.add_edge(a, b);
                    j = j + 1;
                }
                if t.is_valid_tree() {
                    Some(t)
                } else {
                    None
                }
            },
        }
    }
}

/// Search the width bound upward from the smallest degree and return the
/// first decomposition the validator accepts, or the single bag of every
/// vertex when no smaller width is found; only the empty graph yields
/// nothing.  The accepted bound never drops below the smallest degree and
/// never exceeds one less than the vertex count.  The candidates come
/// from the greedy elimination order alone, gated by the validator; the
/// separator enumerator stands beside this driver as its own entry point.
pub fn optimal_decomposition(graph: &Graph) -> (r: Option<TreeDecomposition>)
    requires
        graph.wf(),
    ensures
        match r {
            Some(t) => {
                &&& t.wf()
                &&& t.valid()
                &&& t.spec_graph().spec_n() == graph.spec_n()
                &&& forall|u: int, v: int| t.spec_graph().spec_adj(u, v) == graph.spec_adj(u, v)
                &&& exists|v: int| 0 <= v < graph.spec_n() && graph.spec_deg(v) <= t.spec_k()
                &&& t.spec_k() <= graph.spec_n() - 1
            },
            None => graph.spec_n() == 0,
        },
{
    let n = graph.num_vertices();
    if n == 0 {
        return None;
    }
    proof {
        lemma_wf_bounds(graph);
    }
    let mut k = graph.min_degree();
    while k < n
        invariant
            graph.wf(),
            n == graph.spec_n(),
            n >= 1,
            exists|v: int| 0 <= v < n && graph.spec_deg(v) <= k,
        decreases n - k,
    {
        let base = TreeDecomposition::new(graph, k);
        let attempt = base.decompose(k);
        match attempt {
            Some(t) => {
                return Some(t);
            },
            None => {},
        }
        k = k + 1;
    }
    // No bounded width was certified; fall back to the one bag of every
    // vertex, which is always a valid decomposition of width `n - 1`.
    let mut t = TreeDecomposition::new(graph, n - 1);
    let all = graph.vertex_set();
    t.add_bag(all);
    proof {
        assert(t.bags_view()[0] == set_int_range(0, graph.spec_n() as int));
        lemma_single_bag_valid(t.spec_graph(), t.spec_k(), t.bags_view(), t.bag_graph());
        lemma_deg_bound(graph, 0);
    }
    Some(t)
}


impl TreeDecomposition {
    /// The number of bags.
    pub fn num_bags(&self) -> (r: usize)
        ensures
            r == self.bags_view().len(),
    {
        self.bags.len()
    }

    /// The members of the named bag, in ascending order.
    pub fn bag(&self, id: usize) -> (r: Vec<usize>)
        requires
            self.wf(),
            id < self.bags_view().len(),
        ensures
            forall|a: int, b: int| 0 <= a < b < r@.len() ==> r@[a] < r@[b],
            forall|a: int| 0 <= a < r@.len() ==> self.bags_view()[id as int].contains(r@[a] as int),
            forall|v: usize| self.bags_view()[id as int].contains(v as int) ==> r@.contains(v),
    {
        proof {
            assert(self.bags_view()[id as int] == self.bags@[id as int]@);
        }
        self.bags[id].to_vec()
    }
}

} // verus!
