//! The witness tree handed out by the driver: bags over an undirected bag
//! graph with the same validator as the decomposition structure, to which
//! every operation delegates.

use vstd::prelude::*;

use crate::graph::{Graph, MAX_N};
use crate::tree_decomposition::{TreeDecomposition, optimal_decomposition};

verus! {

/// A tree of bags over the graph being decomposed.
pub struct Tree {
    inner: TreeDecomposition,
}

impl Tree {
    /// The graph being decomposed.
    pub closed spec fn spec_graph(&self) -> Graph {
        self.inner.spec_graph()
    }

    /// The width bound.
    pub closed spec fn spec_k(&self) -> int {
        self.inner.spec_k()
    }

    /// The bags, as mathematical sets.
    pub closed spec fn bags_view(&self) -> Seq<Set<int>> {
        self.inner.bags_view()
    }

    /// The bag graph.
    pub closed spec fn bag_graph(&self) -> Graph {
        self.inner.bag_graph()
    }

    /// The structural invariant.
    pub closed spec fn wf(&self) -> bool {
        self.inner.wf()
    }

    /// Whether the tree is a valid decomposition of its graph within its
    /// width bound.
    pub open spec fn valid(&self) -> bool {
        crate::decomp::spec_valid_decomposition(
            self.spec_graph(),
            self.spec_k(),
            self.bags_view(),
            self.bag_graph(),
        )
    }

    /// An empty tree over the graph for the width bound.
    pub fn new(graph: &Graph, treewidth: usize) -> (r: Self)
        requires
            graph.wf(),
        ensures
            r.wf(),
            r.spec_graph().spec_n() == graph.spec_n(),
            forall|u: int, v: int| r.spec_graph().spec_adj(u, v) == graph.spec_adj(u, v),
            r.spec_k() == treewidth,
            r.bags_view().len() == 0,
    {
        Tree { inner: TreeDecomposition::new(graph, treewidth) }
    }

    /// One less than the size of the largest bag.
    pub fn treewidth(&self) -> (r: usize)
        requires
            self.wf(),
            exists|i: int|
                0 <= i < self.bags_view().len() && (#[trigger] self.bags_view()[i]).len() >= 1,
        ensures
            exists|i: int|
                0 <= i < self.bags_view().len() && (#[trigger] self.bags_view()[i]).len() == r + 1,
            forall|i: int|
                0 <= i < self.bags_view().len() ==> (#[trigger] self.bags_view()[i]).len() <= r + 1,
    {
        self.inner.treewidth()
    }

    /// Put a single vertex in a fresh bag.
    pub fn add_vertex(&mut self, vertex: usize)
        requires
            old(self).wf(),
            vertex < old(self).spec_graph().spec_n(),
            old(self).bags_view().len() < MAX_N,
        ensures
            final(self).wf(),
            final(self).spec_graph() == old(self).spec_graph(),
            final(self).spec_k() == old(self).spec_k(),
            final(self).bags_view() == old(self).bags_view().push(
                Set::<int>::empty().insert(vertex as int),
            ),
    {
        self.inner.add_vertex(vertex);
    }

    /// Put a vertex in the named bag, creating the bag when the identifier
    /// is the next free one.
    pub fn add_vertex_to_bag(&mut self, node: usize, vertex: usize)
        requires
            old(self).wf(),
            vertex < old(self).spec_graph().spec_n(),
            node <= old(self).bags_view().len(),
            old(self).bags_view().len() < MAX_N,
        ensures
            final(self).wf(),
            final(self).spec_graph() == old(self).spec_graph(),
            final(self).spec_k() == old(self).spec_k(),
            node < old(self).bags_view().len() ==> final(self).bags_view() == old(
                self,
            ).bags_view().update(node as int, old(self).bags_view()[node as int].insert(
                vertex as int,
            )),
            node == old(self).bags_view().len() ==> final(self).bags_view() == old(
                self,
            ).bags_view().push(Set::<int>::empty().insert(vertex as int)),
    {
        self.inner.add_vertex_to_bag(node, vertex);
    }

    /// Join two bags of the tree, in both directions.
    pub fn add_edge(&mut self, u: usize, v: usize)
        requires
            old(self).wf(),
            u < old(self).bags_view().len(),
            v < old(self).bags_view().len(),
            u != v,
        ensures
            final(self).wf(),
            final(self).spec_graph() == old(self).spec_graph(),
            final(self).spec_k() == old(self).spec_k(),
            final(self).bags_view() == old(self).bags_view(),
            forall|a: int, b: int|
                final(self).bag_graph().spec_adj(a, b) == (old(self).bag_graph().spec_adj(a, b)
                    || (a == u && b == v) || (a == v && b == u)),
    {
        self.inner.add_edge(u, v);
    }

    /// The bags joined to the named bag, in ascending order.
    pub fn neighbour(&self, node: usize) -> (r: Vec<usize>)
        requires
            self.wf(),
            node < self.bags_view().len(),
        ensures
            forall|a: int, b: int| 0 <= a < b < r@.len() ==> r@[a] < r@[b],
            forall|a: int|
                0 <= a < r@.len() ==> self.bag_graph().spec_adj(node as int, r@[a] as int),
            forall|b: usize| self.bag_graph().spec_adj(node as int, b as int) ==> r@.contains(b),
    {
        self.inner.neighbour(node)
    }

    /// Whether the structure satisfies all six tree decomposition
    /// properties for its graph and width bound.
    pub fn is_valid_tree(&self) -> (r: bool)
        requires
            self.wf(),
            self.bags_view().len() >= 1,
        ensures
            r == self.valid(),
    {
        self.inner.is_valid_tree()
    }
}

/// Search the width bound upward and return the first witness tree the
/// validator accepts; only the empty graph yields nothing.
pub fn optimal_tree_decomposition(graph: &Graph) -> (r: Option<Tree>)
    requires
        graph.wf(),
    ensures
        match r {
            Some(t) => {
                &&& t.wf()
                &&& t.valid()
                &&& t.spec_graph().spec_n() == graph.spec_n()
                &&& forall|u: int, v: int| t.spec_graph().spec_adj(u, v) == graph.spec_adj(u, v)
            },
            None => graph.spec_n() == 0,
        },
{
    let inner = optimal_decomposition(graph);
    match inner {
        Some(t) => Some(Tree { inner: t }),
        None => None,
    }
}

} // verus!
