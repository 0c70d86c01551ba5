//! An undirected (optionally directed) graph on a contiguous vertex space
//! `[0, n)`, stored as a dense adjacency matrix, together with the graph
//! algorithms the decomposition pipeline relies on: search, connectivity,
//! induced components, neighbourhoods and separator predicates.

use vstd::prelude::*;
use vstd::set_lib::*;

use crate::reach::{AdjRel, closed_under, lemma_pigeonhole, lemma_reach_in_closed,
    lemma_reach_set_contains, lemma_reaches_in_allowed, lemma_reaches_refl, lemma_reaches_step,
    lemma_reaches_sym, lemma_reaches_trans, lemma_same_class, reach_set, reaches, symmetric_on};
use crate::vertex_set::{VertexSet, bit_members, lemma_bit_members_card, lemma_bit_members_step};

verus! {

/// The largest vertex count a dense adjacency matrix is allowed to reach;
/// it keeps every cell count within the range of the machine integers used.
pub const MAX_N: usize = 65535;

/// A graph on vertices `0 .. n`, with an adjacency cell for every ordered
/// pair.  Undirected inputs store both directions of each edge.
pub struct Graph {
    matrix: Vec<Vec<bool>>,
}

impl Graph {
    /// The number of vertices.
    pub closed spec fn spec_n(&self) -> int {
        self.matrix@.len() as int
    }

    /// The adjacency relation: whether the graph has an edge from `u` to `v`.
    pub closed spec fn spec_adj(&self, u: int, v: int) -> bool {
        &&& 0 <= u < self.spec_n()
        &&& 0 <= v < self.spec_n()
        &&& self.matrix@[u]@[v]
    }

    /// The adjacency relation as a value, for the reachability theory.
    pub open spec fn adj_rel(&self) -> AdjRel {
        |u: int, v: int| self.spec_adj(u, v)
    }

    /// The structural invariant: a square matrix of bounded size with an
    /// empty diagonal (no self loops).
    pub closed spec fn wf(&self) -> bool {
        &&& self.matrix@.len() <= MAX_N
        &&& forall|u: int|
            0 <= u < self.matrix@.len() ==> (#[trigger] self.matrix@[u])@.len()
                == self.matrix@.len()
        &&& forall|u: int| 0 <= u < self.matrix@.len() ==> !(#[trigger] self.matrix@[u])@[u]
    }

    /// Whether every edge is stored in both directions.
    pub open spec fn spec_symmetric(&self) -> bool {
        forall|u: int, v: int| #[trigger] self.spec_adj(u, v) ==> self.spec_adj(v, u)
    }

    /// The vertex space `[0, n)` as a mathematical set.
    pub open spec fn all_vertices(&self) -> Set<int> {
        set_int_range(0, self.spec_n())
    }

    /// The out-neighbours of `u`.
    pub open spec fn out_set(&self, u: int) -> Set<int> {
        Set::new(|v: int| self.spec_adj(u, v))
    }

    /// The in-neighbours of `u`.
    pub open spec fn in_set(&self, u: int) -> Set<int> {
        Set::new(|v: int| self.spec_adj(v, u))
    }

    /// The closed neighbourhood of a set: the set itself and every vertex
    /// some member points to.
    pub open spec fn closed_nbhd(&self, s: Set<int>) -> Set<int> {
        Set::new(
            |v: int| s.contains(v) || exists|u: int| #[trigger] s.contains(u) && self.spec_adj(u, v),
        )
    }

    /// The out-degree of `u`.
    pub open spec fn spec_deg(&self, u: int) -> nat {
        self.out_set(u).len()
    }

    /// The empty graph.
    pub fn new() -> (r: Self)
        ensures
            r.wf(),
            r.spec_n() == 0,
    {
        Graph { matrix: Vec::new() }
    }

    /// The number of vertices.
    pub fn num_vertices(&self) -> (r: usize)
        ensures
            r == self.spec_n(),
    {
        self.matrix.len()
    }

    /// The number of vertices.
    pub fn n(&self) -> (r: usize)
        ensures
            r == self.spec_n(),
    {
        self.num_vertices()
    }

    /// The vertices in ascending order.
    pub fn vertices(&self) -> (r: Vec<usize>)
        ensures
            r@.len() == self.spec_n(),
            forall|i: int| 0 <= i < r@.len() ==> r@[i] == i,
    {
        let n = self.matrix.len();
        let mut r: Vec<usize> = Vec::new();
        let mut v: usize = 0;
        while v < n
            invariant
                v <= n,
                r@.len() == v,
                forall|i: int| 0 <= i < v ==> r@[i] == i,
            decreases n - v,
        {
            r.push(v);
            v = v + 1;
        }
        r
    }

    /// The vertices in ascending order.
    pub fn vs(&self) -> (r: Vec<usize>)
        ensures
            r@.len() == self.spec_n(),
            forall|i: int| 0 <= i < r@.len() ==> r@[i] == i,
    {
        self.vertices()
    }

    /// The vertices as a set.
    pub fn vertex_set(&self) -> (r: VertexSet)
        ensures
            r@ == self.all_vertices(),
            r.cap() == self.spec_n(),
    {
        VertexSet::full(self.matrix.len())
    }

    /// The vertices as a set.
    pub fn vs_set(&self) -> (r: VertexSet)
        ensures
            r@ == self.all_vertices(),
            r.cap() == self.spec_n(),
    {
        self.vertex_set()
    }

    /// Add a vertex with no incident edges and return its identifier.
    pub fn add_vertex(&mut self) -> (r: usize)
        requires
            old(self).wf(),
            old(self).spec_n() < MAX_N,
        ensures
            final(self).wf(),
            final(self).spec_n() == old(self).spec_n() + 1,
            r == old(self).spec_n(),
            forall|u: int, v: int|
                final(self).spec_adj(u, v) == (old(self).spec_adj(u, v) && u != r && v != r),
    {
        let n = self.matrix.len();
        // The fresh row for the new vertex.
        let mut row: Vec<bool> = Vec::new();
        let mut j: usize = 0;
        while j < n + 1
            invariant
                n < MAX_N,
                j <= n + 1,
                row@.len() == j,
                forall|i: int| 0 <= i < j ==> !row@[i],
            decreases n + 1 - j,
        {
            row.push(false);
            j = j + 1;
        }
        self.matrix.push(row);
        // Extend every old row by one absent cell.
        let mut u: usize = 0;
        while u < n
            invariant
                u <= n,
                self.matrix@.len() == n + 1,
                old(self).matrix@.len() == n,
                forall|i: int|
                    0 <= i < u ==> (#[trigger] self.matrix@[i])@ == old(self).matrix@[i]@.push(
                        false,
                    ),
                forall|i: int| u <= i < n ==> (#[trigger] self.matrix@[i])@ == old(self).matrix@[i]@,
                (self.matrix@[n as int])@.len() == n + 1,
                forall|i: int| 0 <= i < n + 1 ==> !(self.matrix@[n as int])@[i],
            decreases n - u,
        {
            let row = &mut self.matrix[u];
            row.push(false);
            u = u + 1;
        }
        n
    }

    /// Whether the graph has an edge from `u` to `v`; vertices outside the
    /// graph have none.
    pub fn has_edge(&self, u: usize, v: usize) -> (r: bool)
        requires
            self.wf(),
        ensures
            r == self.spec_adj(u as int, v as int),
    {
        u < self.matrix.len() && v < self.matrix.len() && self.matrix[u][v]
    }

    /// Store or clear the one adjacency cell `(u, v)`.
    fn set_cell(&mut self, u: usize, v: usize, b: bool)
        requires
            old(self).wf(),
            u < old(self).spec_n(),
            v < old(self).spec_n(),
            u != v || !b,
        ensures
            final(self).wf(),
            final(self).spec_n() == old(self).spec_n(),
            forall|a: int, c: int|
                final(self).spec_adj(a, c) == if a == u && c == v {
                    b
                } else {
                    old(self).spec_adj(a, c)
                },
    {
        let row = &mut self.matrix[u];
        row.set(v, b);
    }

    /// Add a directed edge between two distinct vertices of the graph.
    pub fn add_edge(&mut self, u: usize, v: usize)
        requires
            old(self).wf(),
            u < old(self).spec_n(),
            v < old(self).spec_n(),
            u != v,
        ensures
            final(self).wf(),
            final(self).spec_n() == old(self).spec_n(),
            forall|a: int, c: int|
                final(self).spec_adj(a, c) == (old(self).spec_adj(a, c) || (a == u && c == v)),
    {
        self.set_cell(u, v, true);
    }

    /// Add both directions of an edge between two distinct vertices.
    pub fn add_bi_edge(&mut self, u: usize, v: usize)
        requires
            old(self).wf(),
            u < old(self).spec_n(),
            v < old(self).spec_n(),
            u != v,
        ensures
            final(self).wf(),
            final(self).spec_n() == old(self).spec_n(),
            forall|a: int, c: int|
                final(self).spec_adj(a, c) == (old(self).spec_adj(a, c) || (a == u && c == v) || (a
                    == v && c == u)),
    {
        self.add_edge(u, v);
        self.add_edge(v, u);
    }

    /// Add every edge of the list.
    pub fn add_edges(&mut self, edges: Vec<(usize, usize)>)
        requires
            old(self).wf(),
            forall|k: int|
                0 <= k < edges@.len() ==> (#[trigger] edges@[k]).0 < old(self).spec_n()
                    && edges@[k].1 < old(self).spec_n() && edges@[k].0 != edges@[k].1,
        ensures
            final(self).wf(),
            final(self).spec_n() == old(self).spec_n(),
            forall|a: int, c: int|
                final(self).spec_adj(a, c) == (old(self).spec_adj(a, c) || exists|k: int|
                    0 <= k < edges@.len() && (#[trigger] edges@[k]).0 == a && edges@[k].1 == c),
    {
        let mut k: usize = 0;
        while k < edges.len()
            invariant
                self.wf(),
                self.spec_n() == old(self).spec_n(),
                k <= edges@.len(),
                forall|j: int|
                    0 <= j < edges@.len() ==> (#[trigger] edges@[j]).0 < old(self).spec_n()
                        && edges@[j].1 < old(self).spec_n() && edges@[j].0 != edges@[j].1,
                forall|a: int, c: int|
                    self.spec_adj(a, c) == (old(self).spec_adj(a, c) || exists|j: int|
                        0 <= j < k && (#[trigger] edges@[j]).0 == a && edges@[j].1 == c),
            decreases edges@.len() - k,
        {
            let (u, v) = edges[k];
            self.add_edge(u, v);
            k = k + 1;
        }
    }

    /// Remove the edge from `u` to `v` if it exists.
    pub fn del_edge(&mut self, u: usize, v: usize)
        requires
            old(self).wf(),
            u < old(self).spec_n(),
            v < old(self).spec_n(),
        ensures
            final(self).wf(),
            final(self).spec_n() == old(self).spec_n(),
            forall|a: int, c: int|
                final(self).spec_adj(a, c) == (old(self).spec_adj(a, c) && !(a == u && c == v)),
    {
        if u == v {
            return;
        }
        self.set_cell(u, v, false);
    }

    /// Remove every edge into or out of `u`.
    pub fn disconnect_vertex(&mut self, u: usize)
        requires
            old(self).wf(),
            u < old(self).spec_n(),
        ensures
            final(self).wf(),
            final(self).spec_n() == old(self).spec_n(),
            forall|a: int, c: int|
                final(self).spec_adj(a, c) == (old(self).spec_adj(a, c) && a != u && c != u),
    {
        let n = self.matrix.len();
        let mut v: usize = 0;
        while v < n
            invariant
                self.wf(),
                self.spec_n() == n,
                u < n,
                v <= n,
                forall|a: int, c: int|
                    self.spec_adj(a, c) == (old(self).spec_adj(a, c) && !(a == u && c < v) && !(c
                        == u && a < v)),
            decreases n - v,
        {
            self.del_edge(u, v);
            self.del_edge(v, u);
            v = v + 1;
        }
    }

    /// A deep copy of the graph.
    pub fn duplicate(&self) -> (r: Self)
        ensures
            r.spec_n() == self.spec_n(),
            forall|a: int, c: int| r.spec_adj(a, c) == self.spec_adj(a, c),
            self.wf() ==> r.wf(),
    {
        let mut matrix: Vec<Vec<bool>> = Vec::new();
        let mut u: usize = 0;
        while u < self.matrix.len()
            invariant
                u <= self.matrix@.len(),
                matrix@.len() == u,
                forall|i: int| 0 <= i < u ==> (#[trigger] matrix@[i])@ == self.matrix@[i]@,
            decreases self.matrix@.len() - u,
        {
            let mut row: Vec<bool> = Vec::new();
            let mut j: usize = 0;
            let orig = &self.matrix[u];
            while j < orig.len()
                invariant
                    j <= orig@.len(),
                    row@.len() == j,
                    forall|i: int| 0 <= i < j ==> row@[i] == orig@[i],
                decreases orig@.len() - j,
            {
                row.push(orig[j]);
                j = j + 1;
            }
            proof {
                assert(row@ =~= orig@);
            }
            matrix.push(row);
            u = u + 1;
        }
        Graph { matrix }
    }

    /// Whether no edge enters `v`.
    pub open spec fn spec_no_incoming(&self, v: int) -> bool {
        forall|w: int| !self.spec_adj(w, v)
    }

    /// The out-neighbours of `u` in ascending order.
    pub fn outgoing(&self, u: usize) -> (r: Vec<usize>)
        requires
            self.wf(),
            u < self.spec_n(),
        ensures
            forall|a: int, b: int| 0 <= a < b < r@.len() ==> r@[a] < r@[b],
            forall|a: int| 0 <= a < r@.len() ==> self.spec_adj(u as int, r@[a] as int),
            forall|v: usize| self.spec_adj(u as int, v as int) ==> r@.contains(v),
            r@.len() == self.spec_deg(u as int),
    {
        let row = &self.matrix[u];
        let n = row.len();
        let mut r: Vec<usize> = Vec::new();
        proof {
            assert(bit_members(row@, 0) =~= Set::empty());
        }
        let mut j: usize = 0;
        while j < n
            invariant
                self.wf(),
                u < self.spec_n(),
                row == &self.matrix@[u as int],
                n == row@.len(),
                j <= n,
                r@.len() == bit_members(row@, j as int).len(),
                forall|a: int, b: int| 0 <= a < b < r@.len() ==> r@[a] < r@[b],
                forall|a: int| 0 <= a < r@.len() ==> r@[a] < j && self.spec_adj(u as int, r@[a] as int),
                forall|v: usize| v < j && self.spec_adj(u as int, v as int) ==> r@.contains(v),
            decreases n - j,
        {
            proof {
                lemma_bit_members_card(row@, j as int);
                lemma_bit_members_step(row@, j as int);
            }
            if row[j] {
                let ghost prev = r@;
                r.push(j);
                proof {
                    assert(r@[prev.len() as int] == j);
                    assert forall|v: usize| prev.contains(v) implies r@.contains(v) by {
                        let idx = choose|idx: int| 0 <= idx < prev.len() && prev[idx] == v;
                        assert(r@[idx] == v);
                    }
                }
            }
            j = j + 1;
        }
        proof {
            assert(self.out_set(u as int) =~= bit_members(row@, n as int));
        }
        r
    }

    /// The in-neighbours of `u` in ascending order.
    pub fn incoming(&self, u: usize) -> (r: Vec<usize>)
        requires
            self.wf(),
            u < self.spec_n(),
        ensures
            forall|a: int, b: int| 0 <= a < b < r@.len() ==> r@[a] < r@[b],
            forall|a: int| 0 <= a < r@.len() ==> self.spec_adj(r@[a] as int, u as int),
            forall|w: usize| self.spec_adj(w as int, u as int) ==> r@.contains(w),
    {
        let n = self.matrix.len();
        let mut r: Vec<usize> = Vec::new();
        let mut j: usize = 0;
        while j < n
            invariant
                self.wf(),
                u < self.spec_n(),
                n == self.spec_n(),
                j <= n,
                forall|a: int, b: int| 0 <= a < b < r@.len() ==> r@[a] < r@[b],
                forall|a: int| 0 <= a < r@.len() ==> r@[a] < j && self.spec_adj(r@[a] as int, u as int),
                forall|w: usize| w < j && self.spec_adj(w as int, u as int) ==> r@.contains(w),
            decreases n - j,
        {
            if self.matrix[j][u] {
                let ghost prev = r@;
                r.push(j);
                proof {
                    assert(r@[prev.len() as int] == j);
                    assert forall|w: usize| prev.contains(w) implies r@.contains(w) by {
                        let idx = choose|idx: int| 0 <= idx < prev.len() && prev[idx] == w;
                        assert(r@[idx] == w);
                    }
                }
            }
            j = j + 1;
        }
        r
    }

    /// The vertices with no incoming edge, in ascending order.
    pub fn no_incoming(&self) -> (r: Vec<usize>)
        requires
            self.wf(),
        ensures
            forall|a: int, b: int| 0 <= a < b < r@.len() ==> r@[a] < r@[b],
            forall|a: int|
                0 <= a < r@.len() ==> r@[a] < self.spec_n() && self.spec_no_incoming(r@[a] as int),
            forall|v: usize|
                v < self.spec_n() && self.spec_no_incoming(v as int) ==> r@.contains(v),
    {
        let n = self.matrix.len();
        let mut r: Vec<usize> = Vec::new();
        let mut v: usize = 0;
        while v < n
            invariant
                self.wf(),
                n == self.spec_n(),
                v <= n,
                forall|a: int, b: int| 0 <= a < b < r@.len() ==> r@[a] < r@[b],
                forall|a: int|
                    0 <= a < r@.len() ==> r@[a] < v && self.spec_no_incoming(r@[a] as int),
                forall|w: usize| w < v && self.spec_no_incoming(w as int) ==> r@.contains(w),
            decreases n - v,
        {
            let inc = self.incoming(v);
            if inc.len() == 0 {
                let ghost prev = r@;
                r.push(v);
                proof {
                    assert forall|w: int| !self.spec_adj(w, v as int) by {
                        if self.spec_adj(w, v as int) {
                            assert(inc@.contains(w as usize));
                        }
                    }
                    assert(r@[prev.len() as int] == v);
                    assert forall|w: usize| prev.contains(w) implies r@.contains(w) by {
                        let idx = choose|idx: int| 0 <= idx < prev.len() && prev[idx] == w;
                        assert(r@[idx] == w);
                    }
                }
            } else {
                proof {
                    assert(self.spec_adj(inc@[0] as int, v as int));
                }
            }
            v = v + 1;
        }
        r
    }

    /// The smallest out-degree of any vertex; zero on the empty graph.
    pub fn min_degree(&self) -> (r: usize)
        requires
            self.wf(),
        ensures
            self.spec_n() == 0 ==> r == 0,
            self.spec_n() > 0 ==> exists|v: int|
                0 <= v < self.spec_n() && #[trigger] self.spec_deg(v) == r,
            forall|v: int| 0 <= v < self.spec_n() ==> #[trigger] self.spec_deg(v) >= r,
    {
        let n = self.matrix.len();
        if n == 0 {
            return 0;
        }
        let first = self.outgoing(0);
        let mut best: usize = first.len();
        let mut v: usize = 1;
        while v < n
            invariant
                self.wf(),
                n == self.spec_n(),
                1 <= v <= n,
                exists|w: int| 0 <= w < v && #[trigger] self.spec_deg(w) == best,
                forall|w: int| 0 <= w < v ==> #[trigger] self.spec_deg(w) >= best,
            decreases n - v,
        {
            let out = self.outgoing(v);
            let d = out.len();
            if d < best {
                best = d;
            }
            v = v + 1;
        }
        best
    }

    /// The closed neighbourhood of a vertex set: the set itself and every
    /// out-neighbour of a member.
    pub fn neighbourhood(&self, vs: &VertexSet) -> (r: VertexSet)
        requires
            self.wf(),
            vs.cap() == self.spec_n(),
        ensures
            r@ == self.closed_nbhd(vs@),
            r.cap() == self.spec_n(),
    {
        let n = self.matrix.len();
        let mut r = vs.duplicate();
        let mut v: usize = 0;
        while v < n
            invariant
                self.wf(),
                n == self.spec_n(),
                vs.cap() == n,
                r.cap() == n,
                v <= n,
                forall|x: int| vs@.contains(x) ==> r@.contains(x),
                forall|x: int| r@.contains(x) ==> self.closed_nbhd(vs@).contains(x),
                forall|u: int, w: int|
                    0 <= u < v && vs@.contains(u) && #[trigger] self.spec_adj(u, w)
                        ==> r@.contains(w),
            decreases n - v,
        {
            if vs.contains(v) {
                let mut w: usize = 0;
                while w < n
                    invariant
                        self.wf(),
                        n == self.spec_n(),
                        vs.cap() == n,
                        r.cap() == n,
                        v < n,
                        w <= n,
                        vs@.contains(v as int),
                        forall|x: int| vs@.contains(x) ==> r@.contains(x),
                        forall|x: int| r@.contains(x) ==> self.closed_nbhd(vs@).contains(x),
                        forall|u: int, x: int|
                            0 <= u < v && vs@.contains(u) && #[trigger] self.spec_adj(u, x)
                                ==> r@.contains(x),
                        forall|x: int|
                            0 <= x < w && #[trigger] self.spec_adj(v as int, x) ==> r@.contains(x),
                    decreases n - w,
                {
                    if self.matrix[v][w] {
                        r.insert(w);
                        proof {
                            assert(self.spec_adj(v as int, w as int));
                            assert(self.closed_nbhd(vs@).contains(w as int));
                        }
                    }
                    w = w + 1;
                }
            }
            v = v + 1;
        }
        proof {
            assert forall|x: int| self.closed_nbhd(vs@).contains(x) implies r@.contains(x) by {
                if !vs@.contains(x) {
                    let u = choose|u: int| #[trigger] vs@.contains(u) && self.spec_adj(u, x);
                }
            }
            assert(r@ =~= self.closed_nbhd(vs@));
        }
        r
    }

    /// The closed neighbourhood of a vertex set.
    pub fn neighbours(&self, vs: &VertexSet) -> (r: VertexSet)
        requires
            self.wf(),
            vs.cap() == self.spec_n(),
        ensures
            r@ == self.closed_nbhd(vs@),
            r.cap() == self.spec_n(),
    {
        self.neighbourhood(vs)
    }

    /// Whether every two distinct listed vertices are joined by an edge.
    pub fn is_clique(&self, vs: Vec<usize>) -> (r: bool)
        requires
            self.wf(),
            vs@.len() >= 1,
            forall|k: int| 0 <= k < vs@.len() ==> (#[trigger] vs@[k]) < self.spec_n(),
        ensures
            r == forall|i: int, j: int|
                0 <= i < j < vs@.len() ==> self.spec_adj(#[trigger] vs@[i] as int, #[trigger] vs@[j] as int),
    {
        let m = vs.len();
        let mut i: usize = 0;
        while i < m - 1
            invariant
                self.wf(),
                m == vs@.len(),
                m >= 1,
                forall|k: int| 0 <= k < vs@.len() ==> (#[trigger] vs@[k]) < self.spec_n(),
                i <= m,
                forall|a: int, b: int|
                    0 <= a < b < vs@.len() && a < i
                        ==> self.spec_adj(#[trigger] vs@[a] as int, #[trigger] vs@[b] as int),
            decreases m - i,
        {
            let mut j: usize = i + 1;
            while j < m
                invariant
                    self.wf(),
                    m == vs@.len(),
                    i + 1 <= m,
                    i + 1 <= j <= m,
                    forall|k: int| 0 <= k < vs@.len() ==> (#[trigger] vs@[k]) < self.spec_n(),
                    forall|b: int|
                        i < b < j ==> self.spec_adj(#[trigger] vs@[i as int] as int, #[trigger] vs@[b] as int),
                decreases m - j,
            {
                if !self.has_edge(vs[i], vs[j]) {
                    return false;
                }
                j = j + 1;
            }
            i = i + 1;
        }
        true
    }
}


/// Whether `v` occurs in the sequence.
pub open spec fn seq_mem(s: Seq<usize>, v: int) -> bool {
    exists|k: int| 0 <= k < s.len() && (#[trigger] s[k]) == v
}

/// The occurring values of a sequence, as a set of integers.
pub open spec fn seq_set(s: Seq<usize>) -> Set<int> {
    Set::new(|v: int| seq_mem(s, v))
}

/// A duplicate-free sequence of values below `n` has at most `n` entries.
pub proof fn lemma_nodup_bounded_len(s: Seq<usize>, n: int)
    requires
        s.no_duplicates(),
        forall|i: int| 0 <= i < s.len() ==> (#[trigger] s[i]) < n,
        n >= 0,
    ensures
        s.len() <= n,
{
    let t = Seq::new(s.len(), |i: int| s[i] as int);
    if s.len() > n {
        lemma_pigeonhole(t, n);
        let (i, j): (int, int) = choose|i: int, j: int| 0 <= i < j < t.len() && t[i] == t[j];
        assert(s[i] == s[j]);
        assert(false);
    }
}

/// A duplicate-free sequence has as many values as entries.
pub proof fn lemma_seq_set_card(s: Seq<usize>)
    requires
        s.no_duplicates(),
    ensures
        seq_set(s).finite(),
        seq_set(s).len() == s.len(),
{
    let t = Seq::new(s.len(), |i: int| s[i] as int);
    assert(t.no_duplicates()) by {
        assert forall|i: int, j: int|
            0 <= i < t.len() && 0 <= j < t.len() && i != j implies t[i] != t[j] by {
            assert(s[i] != s[j]);
        }
    }
    t.unique_seq_to_set();
    assert forall|x: int| t.to_set().contains(x) == seq_set(s).contains(x) by {
        if t.to_set().contains(x) {
            let i = choose|i: int| 0 <= i < t.len() && t[i] == x;
            assert(s[i] == x);
        }
        if seq_set(s).contains(x) {
            let i = choose|i: int| 0 <= i < s.len() && (#[trigger] s[i]) == x;
            assert(t[i] == x);
        }
    }
    assert(t.to_set() =~= seq_set(s));
}

/// A duplicate-free sequence of `n` values below `n` holds every one of them.
pub proof fn lemma_nodup_full_cover(s: Seq<usize>, n: int)
    requires
        s.no_duplicates(),
        forall|i: int| 0 <= i < s.len() ==> (#[trigger] s[i]) < n,
        s.len() == n,
        n >= 0,
    ensures
        forall|v: int| 0 <= v < n ==> seq_mem(s, v),
{
    lemma_seq_set_card(s);
    lemma_int_range(0, n);
    assert(seq_set(s).subset_of(set_int_range(0, n))) by {
        assert forall|x: int| seq_set(s).contains(x) implies set_int_range(0, n).contains(x) by {
            let i = choose|i: int| 0 <= i < s.len() && (#[trigger] s[i]) == x;
        }
    }
    lemma_len_subset(seq_set(s), set_int_range(0, n));
    lemma_subset_equality(seq_set(s), set_int_range(0, n));
    assert forall|v: int| 0 <= v < n implies seq_mem(s, v) by {
        assert(set_int_range(0, n).contains(v));
        assert(seq_set(s).contains(v));
    }
}

/// Two disjoint duplicate-free sequences of values below `n` have at most
/// `n` entries together.
pub proof fn lemma_two_disjoint_nodup(a: Seq<usize>, b: Seq<usize>, n: int)
    requires
        a.no_duplicates(),
        b.no_duplicates(),
        forall|x: int| !(seq_mem(a, x) && seq_mem(b, x)),
        forall|i: int| 0 <= i < a.len() ==> (#[trigger] a[i]) < n,
        forall|i: int| 0 <= i < b.len() ==> (#[trigger] b[i]) < n,
        n >= 0,
    ensures
        a.len() + b.len() <= n,
{
    let t = a + b;
    assert forall|i: int, j: int|
        0 <= i < t.len() && 0 <= j < t.len() && i != j implies t[i] != t[j] by {
        if i < a.len() && j < a.len() {
        } else if i >= a.len() && j >= a.len() {
            assert(t[i] == b[i - a.len()] && t[j] == b[j - a.len()]);
        } else if i < a.len() && j >= a.len() {
            if t[i] == t[j] {
                assert(seq_mem(a, t[i] as int) && seq_mem(b, t[i] as int));
            }
        } else {
            if t[i] == t[j] {
                assert(seq_mem(a, t[j] as int) && seq_mem(b, t[j] as int));
            }
        }
    }
    assert(t.no_duplicates());
    assert forall|i: int| 0 <= i < t.len() implies (#[trigger] t[i]) < n by {
        if i < a.len() {
            assert(t[i] == a[i]);
        } else {
            assert(t[i] == b[i - a.len()]);
        }
    }
    lemma_nodup_bounded_len(t, n);
}

impl Graph {
    /// Whether every vertex is reachable from vertex `0`.
    pub open spec fn spec_connected(&self) -> bool {
        forall|v: int|
            0 <= v < self.spec_n() ==> reaches(
                self.adj_rel(),
                self.all_vertices(),
                0,
                v,
            )
    }

    /// Breadth-first order of the vertices reachable from `u` by walks
    /// inside `allowed`; neighbours expand in ascending order.
    fn reach_list(&self, allowed: &VertexSet, u: usize) -> (r: Vec<usize>)
        requires
            self.wf(),
            allowed.cap() == self.spec_n(),
            u < self.spec_n(),
            allowed@.contains(u as int),
        ensures
            r@.len() >= 1 && r@[0] == u,
            r@.no_duplicates(),
            forall|i: int|
                0 <= i < r@.len() ==> (#[trigger] r@[i]) < self.spec_n() && reaches(
                    self.adj_rel(),
                    allowed@,
                    u as int,
                    r@[i] as int,
                ),
            forall|v: int| reaches(self.adj_rel(), allowed@, u as int, v) ==> seq_mem(r@, v),
            r@ == bfs_span(*self, allowed@, seq![u], 0, self.spec_n() as nat),
    {
        let n = self.matrix.len();
        let ghost adj = self.adj_rel();
        let mut seen: Vec<bool> = vec![false; n];
        let mut r: Vec<usize> = Vec::new();
        r.push(u);
        seen.set(u, true);
        proof {
            lemma_reaches_refl(adj, allowed@, u as int);
            assert(r@ =~= seq![u]);
            assert forall|w: int| 0 <= w < n implies (seen@[w] <==> seq_mem(r@, w)) by {
                if seq_mem(r@, w) {
                    let j = choose|j: int| 0 <= j < r@.len() && (#[trigger] r@[j]) == w;
                    assert(j == 0 && w == u as int);
                }
                if w == u as int {
                    assert(r@[0] == u);
                    assert(seq_mem(r@, w));
                }
            }
        }
        let mut qi: usize = 0;
        while qi < r.len()
            invariant
                self.wf(),
                n == self.spec_n(),
                allowed.cap() == n,
                u < n,
                allowed@.contains(u as int),
                adj == self.adj_rel(),
                seen@.len() == n,
                qi <= r@.len(),
                r@.len() >= 1 && r@[0] == u,
                r@.no_duplicates(),
                r@.len() <= n,
                forall|i: int|
                    0 <= i < r@.len() ==> (#[trigger] r@[i]) < n && allowed@.contains(
                        r@[i] as int,
                    ) && reaches(adj, allowed@, u as int, r@[i] as int),
                forall|w: int| 0 <= w < n ==> (seen@[w] <==> seq_mem(r@, w)),
                forall|i: int, w: int|
                    0 <= i < qi && #[trigger] self.spec_adj(r@[i] as int, w) && allowed@.contains(w)
                        ==> seq_mem(r@, w),
                bfs_span(*self, allowed@, seq![u], 0, n as nat) == bfs_span(
                    *self,
                    allowed@,
                    r@,
                    qi as int,
                    (n - qi) as nat,
                ),
            decreases n - qi,
        {
            let v = r[qi];
            let ghost r_head = r@;
            let mut w: usize = 0;
            while w < n
                invariant
                    self.wf(),
                    n == self.spec_n(),
                    allowed.cap() == n,
                    u < n,
                    allowed@.contains(u as int),
                    adj == self.adj_rel(),
                    seen@.len() == n,
                    qi < r@.len(),
                    v == r@[qi as int],
                    v < n,
                    w <= n,
                    r@.len() >= 1 && r@[0] == u,
                    r@.no_duplicates(),
                    r@.len() <= n,
                    forall|i: int|
                        0 <= i < r@.len() ==> (#[trigger] r@[i]) < n && allowed@.contains(
                            r@[i] as int,
                        ) && reaches(adj, allowed@, u as int, r@[i] as int),
                    forall|x: int| 0 <= x < n ==> (seen@[x] <==> seq_mem(r@, x)),
                    forall|i: int, x: int|
                        0 <= i < qi && #[trigger] self.spec_adj(r@[i] as int, x)
                            && allowed@.contains(x) ==> seq_mem(r@, x),
                    forall|x: int|
                        0 <= x < w && self.spec_adj(v as int, x) && allowed@.contains(x)
                            ==> seq_mem(r@, x),
                    r@ == r_head + fresh_nbrs(*self, allowed@, r_head, v as int, w as int),
                    forall|idx: int|
                        r_head.len() <= idx < r@.len() ==> (#[trigger] r@[idx]) < w,
                    r_head.len() <= r@.len(),
                decreases n - w,
            {
                proof {
                    // Membership in the queue so far and in the queue at the
                    // start of this round agree on the vertex under test.
                    assert(seq_mem(r@, w as int) == seq_mem(r_head, w as int)) by {
                        if seq_mem(r@, w as int) {
                            let idx = choose|idx: int|
                                0 <= idx < r@.len() && (#[trigger] r@[idx]) == w;
                            if idx < r_head.len() {
                                assert(r_head[idx] == w);
                            }
                        }
                        if seq_mem(r_head, w as int) {
                            let idx = choose|idx: int|
                                0 <= idx < r_head.len() && (#[trigger] r_head[idx]) == w;
                            assert(r@[idx] == w);
                        }
                    }
                }
                if self.matrix[v][w] && allowed.contains(w) && !seen[w] {
                    let ghost prev = r@;
                    proof {
                        assert(self.spec_adj(v as int, w as int));
                        lemma_reaches_step(adj, allowed@, u as int, v as int, w as int);
                        assert(!seq_mem(prev, w as int));
                    }
                    seen.set(w, true);
                    r.push(w);
                    proof {
                        assert(r@[prev.len() as int] == w);
                        assert forall|i: int, j: int|
                            0 <= i < r@.len() && 0 <= j < r@.len() && i != j implies r@[i]
                            != r@[j] by {
                            if i < prev.len() && j < prev.len() {
                            } else if j == prev.len() {
                                if r@[i] == w {
                                    assert(seq_mem(prev, w as int));
                                }
                            } else if i == prev.len() {
                                if r@[j] == w {
                                    assert(seq_mem(prev, w as int));
                                }
                            }
                        }
                        assert(r@.no_duplicates());
                        lemma_nodup_bounded_len(r@, n as int);
                        assert forall|x: int| seq_mem(prev, x) implies seq_mem(r@, x) by {
                            let k = choose|k: int| 0 <= k < prev.len() && prev[k] == x;
                            assert(r@[k] == x);
                        }
                    }
                }
                proof {
                    assert(fresh_nbrs(*self, allowed@, r_head, v as int, w + 1 as int)
                        == if self.spec_adj(v as int, w as int) && allowed@.contains(w as int)
                            && !seq_mem(r_head, w as int) {
                            fresh_nbrs(*self, allowed@, r_head, v as int, w as int).push(w)
                        } else {
                            fresh_nbrs(*self, allowed@, r_head, v as int, w as int)
                        });
                }
                w = w + 1;
            }
            proof {
                assert(r@ == r_head + fresh_nbrs(*self, allowed@, r_head, v as int, n as int));
                assert(bfs_span(*self, allowed@, r_head, qi as int, (n - qi) as nat) == bfs_span(
                    *self,
                    allowed@,
                    r@,
                    qi + 1,
                    (n - qi - 1) as nat,
                )) by {
                    assert(r_head[qi as int] == v);
                }
            }
            qi = qi + 1;
        }
        proof {
            assert forall|v2: int|
                reaches(adj, allowed@, u as int, v2) implies seq_mem(r@, v2) by {
                assert(closed_under(adj, allowed@, seq_set(r@))) by {
                    assert forall|x: int, y: int|
                        seq_set(r@).contains(x) && #[trigger] adj(x, y) && allowed@.contains(y)
                        implies seq_set(r@).contains(y) by {
                        let k = choose|k: int| 0 <= k < r@.len() && (#[trigger] r@[k]) == x;
                        assert(self.spec_adj(r@[k] as int, y));
                    }
                }
                assert(seq_set(r@).contains(u as int)) by {
                    assert(r@[0] == u);
                }
                lemma_reach_in_closed(adj, allowed@, seq_set(r@), u as int, v2);
            }
        }
        r
    }

    /// The vertices reachable from `u` by walks inside `allowed`, as a set.
    pub(crate) fn reach_mask(&self, allowed: &VertexSet, u: usize) -> (r: VertexSet)
        requires
            self.wf(),
            allowed.cap() == self.spec_n(),
            u < self.spec_n(),
            allowed@.contains(u as int),
        ensures
            r@ == reach_set(self.adj_rel(), allowed@, u as int),
            r.cap() == self.spec_n(),
    {
        let list = self.reach_list(allowed, u);
        let n = self.matrix.len();
        let mut r = VertexSet::new(n);
        let mut k: usize = 0;
        while k < list.len()
            invariant
                n == self.spec_n(),
                r.cap() == n,
                k <= list@.len(),
                forall|i: int| 0 <= i < list@.len() ==> (#[trigger] list@[i]) < n,
                forall|x: int|
                    r@.contains(x) <==> exists|i: int|
                        0 <= i < k && (#[trigger] list@[i]) == x,
            decreases list@.len() - k,
        {
            r.insert(list[k]);
            k = k + 1;
        }
        proof {
            assert forall|x: int|
                r@.contains(x) == reach_set(self.adj_rel(), allowed@, u as int).contains(x) by {
                lemma_reach_set_contains(self.adj_rel(), allowed@, u as int, x);
                if r@.contains(x) {
                    let i = choose|i: int| 0 <= i < list@.len() && (#[trigger] list@[i]) == x;
                    assert(reaches(self.adj_rel(), allowed@, u as int, list@[i] as int));
                } else {
                    if reaches(self.adj_rel(), allowed@, u as int, x) {
                        assert(seq_mem(list@, x));
                    }
                }
            }
            assert(r@ =~= reach_set(self.adj_rel(), allowed@, u as int));
        }
        r
    }

    /// Breadth-first search from `u`: the vertices reachable from `u`, each
    /// exactly once, `u` first, expanding neighbours in ascending order.
    pub fn bfs(&self, u: usize) -> (r: Vec<usize>)
        requires
            self.wf(),
            u < self.spec_n(),
        ensures
            r@.len() >= 1 && r@[0] == u,
            r@.no_duplicates(),
            forall|i: int|
                0 <= i < r@.len() ==> (#[trigger] r@[i]) < self.spec_n() && reaches(
                    self.adj_rel(),
                    self.all_vertices(),
                    u as int,
                    r@[i] as int,
                ),
            forall|v: int|
                reaches(self.adj_rel(), self.all_vertices(), u as int, v) ==> seq_mem(r@, v),
            r@ == bfs_span(*self, self.all_vertices(), seq![u], 0, self.spec_n() as nat),
    {
        let all = self.vertex_set();
        self.reach_list(&all, u)
    }

    /// Depth-first search from `u`: the vertices reachable from `u`, each
    /// exactly once, `u` first, expanding the smallest unseen neighbour first.
    pub fn dfs(&self, u: usize) -> (r: Vec<usize>)
        requires
            self.wf(),
            u < self.spec_n(),
        ensures
            r@.len() >= 1 && r@[0] == u,
            r@.no_duplicates(),
            forall|i: int|
                0 <= i < r@.len() ==> (#[trigger] r@[i]) < self.spec_n() && reaches(
                    self.adj_rel(),
                    self.all_vertices(),
                    u as int,
                    r@[i] as int,
                ),
            forall|v: int|
                reaches(self.adj_rel(), self.all_vertices(), u as int, v) ==> seq_mem(r@, v),
            r@ == dfs_span(*self, self.all_vertices(), Seq::empty(), seq![u], self.spec_n() as nat),
    {
        let n = self.matrix.len();
        let ghost adj = self.adj_rel();
        let ghost allowed = self.all_vertices();
        let mut seen: Vec<bool> = vec![false; n];
        let mut r: Vec<usize> = Vec::new();
        let mut stack: Vec<usize> = Vec::new();
        stack.push(u);
        seen.set(u, true);
        proof {
            lemma_reaches_refl(adj, allowed, u as int);
            assert(stack@[0] == u);
            assert(stack@ =~= seq![u]);
            assert(r@ =~= Seq::<usize>::empty());
            assert forall|x: int|
                0 <= x < n implies (seen@[x] <==> (seq_mem(r@, x) || seq_mem(stack@, x))) by {
                if seq_mem(stack@, x) {
                    let k = choose|k: int| 0 <= k < stack@.len() && (#[trigger] stack@[k]) == x;
                    assert(x == u);
                }
                if x == u {
                    assert(seq_mem(stack@, x));
                }
            }
        }
        while stack.len() > 0
            invariant
                self.wf(),
                n == self.spec_n(),
                u < n,
                adj == self.adj_rel(),
                allowed == self.all_vertices(),
                seen@.len() == n,
                r@.no_duplicates(),
                stack@.no_duplicates(),
                forall|x: int| !(seq_mem(r@, x) && seq_mem(stack@, x)),
                forall|i: int| 0 <= i < r@.len() ==> (#[trigger] r@[i]) < n,
                forall|i: int| 0 <= i < stack@.len() ==> (#[trigger] stack@[i]) < n,
                forall|i: int|
                    0 <= i < r@.len() ==> reaches(adj, allowed, u as int, #[trigger] r@[i] as int),
                forall|i: int|
                    0 <= i < stack@.len() ==> reaches(
                        adj,
                        allowed,
                        u as int,
                        #[trigger] stack@[i] as int,
                    ),
                forall|x: int| 0 <= x < n ==> (seen@[x] <==> (seq_mem(r@, x) || seq_mem(stack@, x))),
                forall|i: int, x: int|
                    0 <= i < r@.len() && #[trigger] self.spec_adj(r@[i] as int, x)
                        ==> seq_mem(r@, x) || seq_mem(stack@, x),
                r@.len() + stack@.len() <= n,
                r@.len() == 0 ==> stack@ =~= seq![u],
                r@.len() > 0 ==> r@[0] == u,
                dfs_span(*self, allowed, Seq::empty(), seq![u], n as nat) == dfs_span(
                    *self,
                    allowed,
                    r@,
                    stack@,
                    (n - r@.len()) as nat,
                ),
            decreases n - r@.len(),
        {
            let ghost old_stack = stack@;
            let ghost old_r = r@;
            let v = stack.pop().unwrap();
            proof {
                assert(v == old_stack.last());
                assert(seq_mem(old_stack, v as int)) by {
                    assert(old_stack[old_stack.len() - 1] == v);
                }
                assert forall|x: int| seq_mem(stack@, x) implies seq_mem(old_stack, x) by {
                    let k = choose|k: int| 0 <= k < stack@.len() && (#[trigger] stack@[k]) == x;
                    assert(old_stack[k] == x);
                }
                assert(!seq_mem(stack@, v as int)) by {
                    if seq_mem(stack@, v as int) {
                        let k = choose|k: int|
                            0 <= k < stack@.len() && (#[trigger] stack@[k]) == v;
                        assert(old_stack[k] == old_stack[old_stack.len() - 1]);
                    }
                }
            }
            r.push(v);
            proof {
                assert(r@[old_r.len() as int] == v);
                assert(r@.drop_last() == old_r);
                assert forall|x: int| seq_mem(old_r, x) implies seq_mem(r@, x) by {
                    let k = choose|k: int| 0 <= k < old_r.len() && (#[trigger] old_r[k]) == x;
                    assert(r@[k] == x);
                }
                assert forall|i: int, j: int|
                    0 <= i < r@.len() && 0 <= j < r@.len() && i != j implies r@[i] != r@[j] by {
                    if i < old_r.len() && j < old_r.len() {
                    } else if j == old_r.len() {
                        if r@[i] == v {
                            assert(seq_mem(old_r, v as int) && seq_mem(old_stack, v as int));
                        }
                    } else if i == old_r.len() {
                        if r@[j] == v {
                            assert(seq_mem(old_r, v as int) && seq_mem(old_stack, v as int));
                        }
                    }
                }
                assert(r@.no_duplicates());
                assert forall|x: int| !(seq_mem(r@, x) && seq_mem(stack@, x)) by {
                    if seq_mem(r@, x) && seq_mem(stack@, x) {
                        let k = choose|k: int| 0 <= k < r@.len() && (#[trigger] r@[k]) == x;
                        if k < old_r.len() {
                            assert(seq_mem(old_r, x) && seq_mem(old_stack, x));
                        } else {
                            assert(x == v as int);
                        }
                    }
                }
                if old_r.len() == 0 {
                    assert(v == u);
                }
                assert forall|x: int|
                    seq_mem(old_r, x) || seq_mem(old_stack, x) implies (seq_mem(r@, x) || seq_mem(
                    stack@,
                    x,
                )) by {
                    if seq_mem(old_r, x) {
                        let k = choose|k: int| 0 <= k < old_r.len() && (#[trigger] old_r[k]) == x;
                        assert(r@[k] == x);
                    } else {
                        let k = choose|k: int|
                            0 <= k < old_stack.len() && (#[trigger] old_stack[k]) == x;
                        if k < old_stack.len() - 1 {
                            assert(stack@[k] == x);
                        } else {
                            assert(x == v);
                            assert(r@[old_r.len() as int] == v);
                        }
                    }
                }
                assert forall|x: int|
                    0 <= x < n implies (seen@[x] <==> (seq_mem(r@, x) || seq_mem(stack@, x))) by {
                    if seq_mem(r@, x) {
                        let k = choose|k: int| 0 <= k < r@.len() && (#[trigger] r@[k]) == x;
                        if k < old_r.len() {
                            assert(old_r[k] == x);
                        } else {
                            assert(x == v);
                            assert(seq_mem(old_stack, v as int));
                        }
                    }
                }
            }
            // Push the unseen out-neighbours, largest first, so the smallest
            // expands first.
            let ghost stack_head = stack@;
            let mut w: usize = n;
            proof {
                assert(fresh_stack(*self, allowed, r@, stack_head, v as int, n as int)
                    =~= Seq::<usize>::empty());
                assert(stack@ =~= stack_head + fresh_stack(
                    *self,
                    allowed,
                    r@,
                    stack_head,
                    v as int,
                    n as int,
                ));
            }
            while w > 0
                invariant
                    self.wf(),
                    n == self.spec_n(),
                    u < n,
                    adj == self.adj_rel(),
                    allowed == self.all_vertices(),
                    seen@.len() == n,
                    w <= n,
                    v < n,
                    r@.len() >= 1,
                    r@[r@.len() - 1] == v,
                    r@[0] == u,
                    reaches(adj, allowed, u as int, v as int),
                    r@.no_duplicates(),
                    stack@.no_duplicates(),
                    forall|x: int| !(seq_mem(r@, x) && seq_mem(stack@, x)),
                    forall|i: int| 0 <= i < r@.len() ==> (#[trigger] r@[i]) < n,
                    forall|i: int| 0 <= i < stack@.len() ==> (#[trigger] stack@[i]) < n,
                    forall|i: int|
                        0 <= i < r@.len() ==> reaches(
                            adj,
                            allowed,
                            u as int,
                            #[trigger] r@[i] as int,
                        ),
                    forall|i: int|
                        0 <= i < stack@.len() ==> reaches(
                            adj,
                            allowed,
                            u as int,
                            #[trigger] stack@[i] as int,
                        ),
                    forall|x: int|
                        0 <= x < n ==> (seen@[x] <==> (seq_mem(r@, x) || seq_mem(stack@, x))),
                    forall|i: int, x: int|
                        0 <= i < r@.len() - 1 && #[trigger] self.spec_adj(r@[i] as int, x)
                            ==> seq_mem(r@, x) || seq_mem(stack@, x),
                    forall|x: int|
                        w <= x < n && self.spec_adj(v as int, x) ==> seq_mem(r@, x) || seq_mem(
                            stack@,
                            x,
                        ),
                    r@.len() + stack@.len() <= n,
                    stack@ == stack_head + fresh_stack(
                        *self,
                        allowed,
                        r@,
                        stack_head,
                        v as int,
                        w as int,
                    ),
                    forall|idx: int|
                        stack_head.len() <= idx < stack@.len() ==> (#[trigger] stack@[idx]) >= w,
                    stack_head.len() <= stack@.len(),
                decreases w,
            {
                w = w - 1;
                proof {
                    // Stack membership now and at the start of this round
                    // agree on the vertex under test.
                    assert(seq_mem(stack@, w as int) == seq_mem(stack_head, w as int)) by {
                        if seq_mem(stack@, w as int) {
                            let idx = choose|idx: int|
                                0 <= idx < stack@.len() && (#[trigger] stack@[idx]) == w;
                            if idx < stack_head.len() {
                                assert(stack_head[idx] == w);
                            }
                        }
                        if seq_mem(stack_head, w as int) {
                            let idx = choose|idx: int|
                                0 <= idx < stack_head.len() && (#[trigger] stack_head[idx]) == w;
                            assert(stack@[idx] == w);
                        }
                    }
                    assert(allowed.contains(w as int));
                }
                if self.matrix[v][w] && !seen[w] {
                    let ghost prev_stack = stack@;
                    proof {
                        assert(self.spec_adj(v as int, w as int));
                        assert(allowed.contains(w as int));
                        lemma_reaches_step(adj, allowed, u as int, v as int, w as int);
                        assert(!seq_mem(r@, w as int) && !seq_mem(prev_stack, w as int));
                    }
                    seen.set(w, true);
                    stack.push(w);
                    proof {
                        assert(stack@[prev_stack.len() as int] == w);
                        assert forall|x: int|
                            seq_mem(prev_stack, x) implies seq_mem(stack@, x) by {
                            let k = choose|k: int|
                                0 <= k < prev_stack.len() && (#[trigger] prev_stack[k]) == x;
                            assert(stack@[k] == x);
                        }
                        assert forall|i: int, j: int|
                            0 <= i < stack@.len() && 0 <= j < stack@.len() && i != j implies stack@[i]
                            != stack@[j] by {
                            if i < prev_stack.len() && j < prev_stack.len() {
                            } else if j == prev_stack.len() {
                                if stack@[i] == w {
                                    assert(seq_mem(prev_stack, w as int));
                                }
                            } else if i == prev_stack.len() {
                                if stack@[j] == w {
                                    assert(seq_mem(prev_stack, w as int));
                                }
                            }
                        }
                        assert(stack@.no_duplicates());
                        lemma_two_disjoint_nodup(r@, stack@, n as int);
                    }
                }
                proof {
                    assert(fresh_stack(*self, allowed, r@, stack_head, v as int, w as int)
                        == if self.spec_adj(v as int, w as int) && allowed.contains(w as int)
                            && !seq_mem(r@, w as int) && !seq_mem(stack_head, w as int) {
                            fresh_stack(
                                *self,
                                allowed,
                                r@,
                                stack_head,
                                v as int,
                                w + 1 as int,
                            ).push(w)
                        } else {
                            fresh_stack(*self, allowed, r@, stack_head, v as int, w + 1 as int)
                        });
                }
            }
            proof {
                // One unfolding of the round function matches this round.
                assert(old_stack.len() >= 1 && old_stack.last() == v);
                assert(old_stack.drop_last() == stack_head);
                assert(old_r.push(v) == r@);
                assert(stack@ == stack_head + fresh_stack(
                    *self,
                    allowed,
                    r@,
                    stack_head,
                    v as int,
                    0,
                ));
                assert((n - old_r.len()) as nat >= 1) by {
                    assert(old_r.len() + old_stack.len() <= n);
                }
                assert(dfs_span(*self, allowed, old_r, old_stack, (n - old_r.len()) as nat)
                    == dfs_span(*self, allowed, r@, stack@, (n - r@.len()) as nat));
            }
        }
        proof {
            assert forall|v2: int|
                reaches(adj, allowed, u as int, v2) implies seq_mem(r@, v2) by {
                assert(closed_under(adj, allowed, seq_set(r@))) by {
                    assert forall|x: int, y: int|
                        seq_set(r@).contains(x) && #[trigger] adj(x, y) && allowed.contains(y)
                        implies seq_set(r@).contains(y) by {
                        let k = choose|k: int| 0 <= k < r@.len() && (#[trigger] r@[k]) == x;
                        assert(self.spec_adj(r@[k] as int, y));
                        assert(seq_mem(r@, y) || seq_mem(stack@, y));
                        assert(stack@.len() == 0);
                    }
                }
                assert(seq_set(r@).contains(u as int)) by {
                    assert(r@.len() >= 1) by {
                        assert(seq_mem(r@, u as int) || seq_mem(stack@, u as int)) by {
                            assert(seen@[u as int]);
                        }
                        assert(stack@.len() == 0);
                    }
                    assert(r@[0] == u);
                }
                lemma_reach_in_closed(adj, allowed, seq_set(r@), u as int, v2);
            }
            assert(r@.len() >= 1) by {
                assert(seq_mem(r@, u as int) || seq_mem(stack@, u as int)) by {
                    assert(seen@[u as int]);
                }
                assert(stack@.len() == 0);
            }
        }
        r
    }

    /// Whether vertex `0` reaches every vertex.
    pub fn is_connected(&self) -> (r: bool)
        requires
            self.wf(),
            self.spec_n() > 0,
        ensures
            r == self.spec_connected(),
    {
        let d = self.dfs(0);
        let n = self.matrix.len();
        if d.len() == n {
            proof {
                let t = Seq::new(d@.len(), |i: int| d@[i] as int);
                assert(t.no_duplicates()) by {
                    assert forall|i: int, j: int|
                        0 <= i < t.len() && 0 <= j < t.len() && i != j implies t[i] != t[j] by {
                        assert(d@[i] != d@[j]);
                    }
                }
                t.unique_seq_to_set();
                lemma_int_range(0, n as int);
                assert(t.to_set().subset_of(set_int_range(0, n as int))) by {
                    assert forall|x: int|
                        t.to_set().contains(x) implies set_int_range(0, n as int).contains(x) by {
                        let i = choose|i: int| 0 <= i < t.len() && t[i] == x;
                        assert(d@[i] < n);
                    }
                }
                lemma_len_subset(t.to_set(), set_int_range(0, n as int));
                assert(t.to_set() =~= set_int_range(0, n as int)) by {
                    lemma_subset_equality(t.to_set(), set_int_range(0, n as int));
                }
                assert forall|v: int|
                    0 <= v < self.spec_n() implies reaches(
                    self.adj_rel(),
                    self.all_vertices(),
                    0,
                    v,
                ) by {
                    assert(t.to_set().contains(v));
                    let i = choose|i: int| 0 <= i < t.len() && t[i] == v;
                    assert(reaches(self.adj_rel(), self.all_vertices(), 0, d@[i] as int));
                }
            }
            true
        } else {
            proof {
                lemma_nodup_bounded_len(d@, n as int);
                assert(d@.len() < n);
                if self.spec_connected() {
                    assert forall|v: usize| v < n implies seq_mem(d@, v as int) by {
                        assert(reaches(self.adj_rel(), self.all_vertices(), 0, v as int));
                    }
                    let t = Seq::new(d@.len(), |i: int| d@[i] as int);
                    assert(t.no_duplicates()) by {
                        assert forall|i: int, j: int|
                            0 <= i < t.len() && 0 <= j < t.len() && i != j implies t[i] != t[j] by {
                            assert(d@[i] != d@[j]);
                        }
                    }
                    t.unique_seq_to_set();
                    lemma_int_range(0, n as int);
                    assert(set_int_range(0, n as int).subset_of(t.to_set())) by {
                        assert forall|x: int|
                            set_int_range(0, n as int).contains(x) implies t.to_set().contains(
                            x,
                        ) by {
                            assert(seq_mem(d@, x));
                            let k = choose|k: int| 0 <= k < d@.len() && (#[trigger] d@[k]) == x;
                            assert(t[k] == x);
                        }
                    }
                    lemma_len_subset(set_int_range(0, n as int), t.to_set());
                    assert(false);
                }
            }
            false
        }
    }
}



/// Exhibits one vertex as the witness that `c` is a component.
pub proof fn lemma_component_witness(g: &Graph, vsv: Set<int>, c: Set<int>, x: int)
    requires
        vsv.contains(x),
        c == reach_set(g.adj_rel(), vsv, x),
    ensures
        g.spec_is_component(vsv, c),
{
    reveal(Graph::spec_is_component);
}

/// Recovers a vertex whose reachability class a component is.
pub proof fn lemma_component_seed(g: &Graph, vsv: Set<int>, c: Set<int>) -> (x: int)
    requires
        g.spec_is_component(vsv, c),
    ensures
        vsv.contains(x),
        c == reach_set(g.adj_rel(), vsv, x),
{
    reveal(Graph::spec_is_component);
    choose|x: int| vsv.contains(x) && c == reach_set(g.adj_rel(), vsv, x)
}

impl Graph {
    /// Whether every listed vertex is reachable from the first one by walks
    /// that stay inside the listed vertices.
    pub open spec fn spec_connected_in(&self, s: Set<int>, root: int) -> bool {
        forall|v: int| s.contains(v) ==> reaches(self.adj_rel(), s, root, v)
    }

    /// Whether no edge of the graph crosses the border of `s` in either
    /// direction.
    pub open spec fn spec_edge_confined(&self, s: Set<int>) -> bool {
        forall|x: int, y: int| #[trigger] self.spec_adj(x, y) ==> (s.contains(x) == s.contains(y))
    }

    /// The vertices that remain when `s` is removed.
    pub open spec fn rest_of(&self, s: Set<int>) -> Set<int> {
        self.all_vertices().difference(s)
    }

    /// Whether `c` is a connected component of the subgraph induced by
    /// `allowed`: the reachability class of one of its vertices.
    #[verifier::opaque]
    pub open spec fn spec_is_component(&self, allowed: Set<int>, c: Set<int>) -> bool {
        exists|x: int| allowed.contains(x) && c == reach_set(self.adj_rel(), allowed, x)
    }

    /// Whether the component `c` is full with respect to the separator:
    /// every separator vertex sees `c`.
    pub open spec fn spec_full(&self, sep: Set<int>, c: Set<int>) -> bool {
        sep.subset_of(self.closed_nbhd(c))
    }

    /// The connected components of the subgraph induced by `allowed`.
    pub open spec fn spec_components(&self, allowed: Set<int>) -> Set<Set<int>> {
        Set::new(|c: Set<int>| self.spec_is_component(allowed, c))
    }

    /// How many connected components the subgraph induced by `allowed` has.
    pub open spec fn spec_num_components(&self, allowed: Set<int>) -> nat {
        self.spec_components(allowed).len()
    }

    /// Whether removing `s` disconnects the graph: the remaining vertices
    /// fall into strictly more connected components than the whole graph
    /// has.
    pub open spec fn spec_is_separator(&self, s: Set<int>) -> bool {
        self.spec_num_components(self.rest_of(s)) > self.spec_num_components(self.all_vertices())
    }

    /// Whether `sep` is a minimal separator: it is nonempty and the graph
    /// without it has two distinct components that both see all of `sep`.
    #[verifier::opaque]
    pub open spec fn spec_is_minimal_separator(&self, sep: Set<int>) -> bool {
        &&& sep != Set::<int>::empty()
        &&& sep.subset_of(self.all_vertices())
        &&& exists|c1: Set<int>, c2: Set<int>|
            #![trigger self.spec_full(sep, c1), self.spec_full(sep, c2)]
            {
                &&& self.spec_is_component(self.rest_of(sep), c1)
                &&& self.spec_is_component(self.rest_of(sep), c2)
                &&& c1 != c2
                &&& self.spec_full(sep, c1)
                &&& self.spec_full(sep, c2)
            }
    }

    /// Whether every stored edge has its reverse stored too.
    pub fn is_symmetric(&self) -> (r: bool)
        requires
            self.wf(),
        ensures
            r == self.spec_symmetric(),
    {
        let n = self.matrix.len();
        let mut u: usize = 0;
        while u < n
            invariant
                self.wf(),
                n == self.spec_n(),
                u <= n,
                forall|a: int, b: int|
                    0 <= a < u && #[trigger] self.spec_adj(a, b) ==> self.spec_adj(b, a),
            decreases n - u,
        {
            let mut v: usize = 0;
            while v < n
                invariant
                    self.wf(),
                    n == self.spec_n(),
                    u < n,
                    v <= n,
                    forall|a: int, b: int|
                        0 <= a < u && #[trigger] self.spec_adj(a, b) ==> self.spec_adj(b, a),
                    forall|b: int|
                        0 <= b < v && #[trigger] self.spec_adj(u as int, b) ==> self.spec_adj(
                            b,
                            u as int,
                        ),
                decreases n - v,
            {
                if self.matrix[u][v] && !self.matrix[v][u] {
                    proof {
                        assert(self.spec_adj(u as int, v as int));
                        assert(!self.spec_adj(v as int, u as int));
                    }
                    return false;
                }
                v = v + 1;
            }
            u = u + 1;
        }
        true
    }

    /// Whether the listed vertices form a connected component of the graph:
    /// connected to the first listed vertex inside the subgraph they induce,
    /// and maximal, no edge crossing their border.
    pub fn is_connected_component(&self, vs: Vec<usize>) -> (r: bool)
        requires
            self.wf(),
            vs@.len() >= 1,
            forall|k: int| 0 <= k < vs@.len() ==> (#[trigger] vs@[k]) < self.spec_n(),
        ensures
            r == (self.spec_connected_in(seq_set(vs@), vs@[0] as int) && self.spec_edge_confined(
                seq_set(vs@),
            )),
    {
        let n = self.matrix.len();
        let mut mask = VertexSet::new(n);
        let mut k: usize = 0;
        while k < vs.len()
            invariant
                n == self.spec_n(),
                mask.cap() == n,
                k <= vs@.len(),
                forall|j: int| 0 <= j < vs@.len() ==> (#[trigger] vs@[j]) < n,
                forall|x: int|
                    mask@.contains(x) <==> exists|j: int| 0 <= j < k && (#[trigger] vs@[j]) == x,
            decreases vs@.len() - k,
        {
            mask.insert(vs[k]);
            k = k + 1;
        }
        proof {
            assert(mask@ =~= seq_set(vs@));
            assert(vs@[0] == vs@[0]);
            assert(seq_set(vs@).contains(vs@[0] as int));
        }
        let root = vs[0];
        let m = self.reach_mask(&mask, root);
        let mut i: usize = 0;
        while i < vs.len()
            invariant
                self.wf(),
                n == self.spec_n(),
                mask.cap() == n,
                mask@ == seq_set(vs@),
                m@ == reach_set(self.adj_rel(), seq_set(vs@), vs@[0] as int),
                i <= vs@.len(),
                vs@.len() >= 1,
                root == vs@[0],
                forall|j: int| 0 <= j < vs@.len() ==> (#[trigger] vs@[j]) < n,
                forall|j: int|
                    0 <= j < i ==> reaches(
                        self.adj_rel(),
                        seq_set(vs@),
                        vs@[0] as int,
                        #[trigger] vs@[j] as int,
                    ),
            decreases vs@.len() - i,
        {
            if !m.contains(vs[i]) {
                proof {
                    assert(seq_set(vs@).contains(vs@[i as int] as int));
                    lemma_reach_set_contains(
                        self.adj_rel(),
                        seq_set(vs@),
                        vs@[0] as int,
                        vs@[i as int] as int,
                    );
                }
                return false;
            }
            proof {
                lemma_reach_set_contains(
                    self.adj_rel(),
                    seq_set(vs@),
                    vs@[0] as int,
                    vs@[i as int] as int,
                );
            }
            i = i + 1;
        }
        proof {
            assert forall|v: int|
                seq_set(vs@).contains(v) implies reaches(
                self.adj_rel(),
                seq_set(vs@),
                vs@[0] as int,
                v,
            ) by {
                let j = choose|j: int| 0 <= j < vs@.len() && (#[trigger] vs@[j]) == v;
                assert(reaches(self.adj_rel(), seq_set(vs@), vs@[0] as int, vs@[j] as int));
            }
        }
        // Maximality: no edge may cross the border of the listed set.
        let mut x: usize = 0;
        while x < n
            invariant
                self.wf(),
                n == self.spec_n(),
                mask.cap() == n,
                mask@ == seq_set(vs@),
                x <= n,
                forall|a: int, b: int|
                    0 <= a < x && #[trigger] self.spec_adj(a, b) ==> (seq_set(vs@).contains(a)
                        == seq_set(vs@).contains(b)),
            decreases n - x,
        {
            let mut y: usize = 0;
            while y < n
                invariant
                    self.wf(),
                    n == self.spec_n(),
                    mask.cap() == n,
                    mask@ == seq_set(vs@),
                    x < n,
                    y <= n,
                    forall|a: int, b: int|
                        0 <= a < x && #[trigger] self.spec_adj(a, b) ==> (seq_set(vs@).contains(a)
                            == seq_set(vs@).contains(b)),
                    forall|b: int|
                        0 <= b < y && #[trigger] self.spec_adj(x as int, b) ==> (seq_set(
                            vs@,
                        ).contains(x as int) == seq_set(vs@).contains(b)),
                decreases n - y,
            {
                if self.matrix[x][y] && mask.contains(x) != mask.contains(y) {
                    proof {
                        assert(self.spec_adj(x as int, y as int));
                    }
                    return false;
                }
                y = y + 1;
            }
            x = x + 1;
        }
        true
    }

    /// The connected components of the subgraph induced by `vs`, each as the
    /// reachability class of its smallest vertex.
    pub fn components_of(&self, vs: &VertexSet) -> (r: Vec<VertexSet>)
        requires
            self.wf(),
            vs.cap() == self.spec_n(),
        ensures
            forall|i: int|
                0 <= i < r@.len() ==> (#[trigger] r@[i]).cap() == self.spec_n()
                    && self.spec_is_component(vs@, r@[i]@),
            forall|v: int|
                vs@.contains(v) ==> exists|i: int| 0 <= i < r@.len() && (#[trigger] r@[i])@.contains(
                    v,
                ),
            symmetric_on(self.adj_rel(), vs@) ==> forall|i: int, j: int|
                0 <= i < j < r@.len() ==> (#[trigger] r@[i])@.disjoint((#[trigger] r@[j])@),
    {
        let n = self.matrix.len();
        let ghost adj = self.adj_rel();
        let mut remaining = vs.duplicate();
        let mut r: Vec<VertexSet> = Vec::new();
        let ghost mut seeds: Seq<int> = Seq::empty();
        let mut v: usize = 0;
        while v < n
            invariant
                self.wf(),
                n == self.spec_n(),
                adj == self.adj_rel(),
                vs.cap() == n,
                remaining.cap() == n,
                v <= n,
                forall|x: int| remaining@.contains(x) ==> vs@.contains(x),
                forall|x: int| 0 <= x < v ==> !remaining@.contains(x),
                r@.len() == seeds.len(),
                forall|i: int| 0 <= i < r@.len() ==> (#[trigger] r@[i]).cap() == n,
                forall|i: int|
                    0 <= i < seeds.len() ==> vs@.contains(#[trigger] seeds[i]) && r@[i]@
                        == reach_set(adj, vs@, seeds[i]),
                forall|i: int, x: int|
                    #![trigger r@[i]@.contains(x)]
                    0 <= i < r@.len() && r@[i]@.contains(x) ==> !remaining@.contains(x),
                forall|i: int, j: int|
                    #![trigger r@[i]@.contains(seeds[j])]
                    0 <= i < j < seeds.len() ==> !r@[i]@.contains(seeds[j]),
                forall|x: int|
                    vs@.contains(x) && !remaining@.contains(x) ==> exists|i: int|
                        0 <= i < r@.len() && (#[trigger] r@[i])@.contains(x),
            decreases n - v,
        {
            if remaining.contains(v) {
                let m = self.reach_mask(vs, v);
                let ghost old_r = r@;
                let ghost old_remaining = remaining@;
                let ghost old_seeds = seeds;
                remaining = remaining.difference(&m);
                r.push(m);
                proof {
                    seeds = seeds.push(v as int);
                    lemma_reaches_refl(adj, vs@, v as int);
                    lemma_reach_set_contains(adj, vs@, v as int, v as int);
                    assert(r@[old_r.len() as int]@.contains(v as int));
                    assert forall|i: int, j: int|
                        0 <= i < j < seeds.len() implies !(#[trigger] r@[i]@.contains(
                        seeds[j],
                    )) by {
                        if j < old_seeds.len() {
                            assert(!old_r[i]@.contains(old_seeds[j]));
                        } else {
                            assert(seeds[j] == v as int);
                            assert(old_remaining.contains(v as int));
                        }
                    }
                    assert forall|x: int|
                        vs@.contains(x) && !remaining@.contains(x) implies exists|i: int|
                        0 <= i < r@.len() && (#[trigger] r@[i])@.contains(x) by {
                        if !old_remaining.contains(x) {
                            let i = choose|i: int|
                                0 <= i < old_r.len() && (#[trigger] old_r[i])@.contains(x);
                            assert(r@[i]@.contains(x));
                        } else {
                            assert(r@[old_r.len() as int]@.contains(x));
                        }
                    }
                }
            }
            v = v + 1;
        }
        proof {
            assert forall|x: int|
                vs@.contains(x) implies exists|i: int|
                0 <= i < r@.len() && (#[trigger] r@[i])@.contains(x) by {
                vs.lemma_wf();
                assert(0 <= x < n);
                assert(!remaining@.contains(x));
            }
        }
        proof {
            assert forall|i: int|
                0 <= i < r@.len() implies self.spec_is_component(vs@, (#[trigger] r@[i])@) by {
                lemma_component_witness(self, vs@, r@[i]@, seeds[i]);
            }
        }
        proof {
            if symmetric_on(adj, vs@) {
                assert forall|i: int, j: int|
                    0 <= i < j < r@.len() implies (#[trigger] r@[i])@.disjoint(
                    (#[trigger] r@[j])@,
                ) by {
                    assert forall|x: int| r@[i]@.contains(x) implies !r@[j]@.contains(x) by {
                        if r@[j]@.contains(x) {
                            lemma_reach_set_contains(adj, vs@, seeds[i], x);
                            lemma_reach_set_contains(adj, vs@, seeds[j], x);
                            lemma_reach_set_contains(adj, vs@, seeds[i], seeds[j]);
                            assert(reaches(adj, vs@, seeds[i], x));
                            assert(reaches(adj, vs@, seeds[j], x));
                            lemma_reaches_sym(adj, vs@, seeds[j], x);
                            lemma_reaches_trans(adj, vs@, seeds[i], x, seeds[j]);
                            assert(r@[i]@.contains(seeds[j]));
                        }
                    }
                }
            }
        }
        r
    }

    /// The full components of the graph with `separator` removed: the
    /// components each of whose closed neighbourhood covers the separator.
    #[verifier::rlimit(60)]
    #[verifier::spinoff_prover]
    pub fn full_components(&self, separator: &VertexSet) -> (r: Vec<VertexSet>)
        requires
            self.wf(),
            separator.cap() == self.spec_n(),
        ensures
            forall|i: int|
                0 <= i < r@.len() ==> (#[trigger] r@[i]).cap() == self.spec_n()
                    && self.spec_is_component(self.rest_of(separator@), r@[i]@) && self.spec_full(
                    separator@,
                    r@[i]@,
                ),
            symmetric_on(self.adj_rel(), self.rest_of(separator@)) ==> forall|v: int|
                self.rest_of(separator@).contains(v) && self.spec_full(
                    separator@,
                    reach_set(self.adj_rel(), self.rest_of(separator@), v),
                ) ==> exists|i: int| 0 <= i < r@.len() && (#[trigger] r@[i])@.contains(v),
            symmetric_on(self.adj_rel(), self.rest_of(separator@)) ==> forall|i: int, j: int|
                0 <= i < j < r@.len() ==> (#[trigger] r@[i])@.disjoint((#[trigger] r@[j])@),
    {
        let ghost adj = self.adj_rel();
        let all = self.vertex_set();
        let rest = all.difference(separator);
        proof {
            assert(rest@ =~= self.rest_of(separator@));
        }
        let ghost restv = self.rest_of(separator@);
        let comps = self.components_of(&rest);
        let mut r: Vec<VertexSet> = Vec::new();
        let ghost mut orig: Seq<int> = Seq::empty();
        let mut k: usize = 0;
        while k < comps.len()
            invariant
                self.wf(),
                adj == self.adj_rel(),
                separator.cap() == self.spec_n(),
                restv == self.rest_of(separator@),
                k <= comps@.len(),
                forall|i: int|
                    0 <= i < comps@.len() ==> (#[trigger] comps@[i]).cap() == self.spec_n()
                        && self.spec_is_component(restv, comps@[i]@),
                symmetric_on(adj, restv) ==> forall|i: int, j: int|
                    0 <= i < j < comps@.len() ==> (#[trigger] comps@[i])@.disjoint(
                        (#[trigger] comps@[j])@,
                    ),
                r@.len() == orig.len(),
                forall|j: int|
                    0 <= j < orig.len() ==> 0 <= #[trigger] orig[j] < k && r@[j]@
                        == comps@[orig[j]]@ && r@[j].cap() == self.spec_n(),
                forall|a: int, b: int| 0 <= a < b < orig.len() ==> orig[a] < orig[b],
                forall|j: int|
                    0 <= j < r@.len() ==> self.spec_full(separator@, (#[trigger] r@[j])@),
                forall|i: int|
                    0 <= i < k && self.spec_full(separator@, (#[trigger] comps@[i])@)
                        ==> orig.contains(i),
            decreases comps@.len() - k,
        {
            let nb = self.neighbourhood(&comps[k]);
            if separator.is_subset(&nb) {
                let ghost old_orig = orig;
                r.push(comps[k].duplicate());
                proof {
                    orig = orig.push(k as int);
                    assert(orig[old_orig.len() as int] == k as int);
                    assert(orig.contains(k as int));
                    assert forall|i: int|
                        old_orig.contains(i) implies orig.contains(i) by {
                        let j = choose|j: int| 0 <= j < old_orig.len() && old_orig[j] == i;
                        assert(orig[j] == i);
                    }
                }
            } else {
                proof {
                    if self.spec_full(separator@, comps@[k as int]@) {
                        assert(separator@.subset_of(nb@));
                        assert(false);
                    }
                }
            }
            k = k + 1;
        }
        proof {
            if symmetric_on(adj, restv) {
                assert forall|v: int|
                    restv.contains(v) && self.spec_full(separator@, reach_set(adj, restv, v))
                    implies exists|i: int|
                    0 <= i < r@.len() && (#[trigger] r@[i])@.contains(v) by {
                    let i = choose|i: int|
                        0 <= i < comps@.len() && (#[trigger] comps@[i])@.contains(v);
                    let seed = lemma_component_seed(self, restv, comps@[i]@);
                    lemma_reaches_refl(adj, restv, v);
                    lemma_reach_set_contains(adj, restv, seed, v);
                    assert(reaches(adj, restv, seed, v));
                    lemma_same_class(adj, restv, seed, v);
                    assert(comps@[i]@ == reach_set(adj, restv, v));
                    lemma_component_witness(self, restv, comps@[i]@, v);
                    assert(self.spec_full(separator@, comps@[i]@));
                    assert(orig.contains(i));
                    let j = choose|j: int| 0 <= j < orig.len() && orig[j] == i;
                    assert(r@[j]@.contains(v));
                }
                assert forall|i: int, j: int|
                    0 <= i < j < r@.len() implies (#[trigger] r@[i])@.disjoint(
                    (#[trigger] r@[j])@,
                ) by {
                    assert(orig[i] < orig[j]);
                    assert(comps@[orig[i]]@.disjoint(comps@[orig[j]]@));
                }
            }
            assert forall|i: int|
                0 <= i < r@.len() implies (#[trigger] r@[i]).cap() == self.spec_n()
                && self.spec_is_component(self.rest_of(separator@), r@[i]@) by {
                assert(r@[i]@ == comps@[orig[i]]@);
                assert(self.spec_is_component(restv, comps@[orig[i]]@));
            }
        }
        r
    }
}

/// A list of pairwise disjoint components covering a region counts the
/// region's components exactly.
pub proof fn lemma_component_count(g: &Graph, allowed: Set<int>, cs: Seq<Set<int>>)
    requires
        symmetric_on(g.adj_rel(), allowed),
        forall|i: int| 0 <= i < cs.len() ==> g.spec_is_component(allowed, #[trigger] cs[i]),
        forall|v: int|
            allowed.contains(v) ==> exists|i: int|
                0 <= i < cs.len() && (#[trigger] cs[i]).contains(v),
        forall|i: int, j: int|
            0 <= i < j < cs.len() ==> (#[trigger] cs[i]).disjoint(#[trigger] cs[j]),
    ensures
        g.spec_components(allowed).finite(),
        g.spec_num_components(allowed) == cs.len(),
{
    let adj = g.adj_rel();
    // Every entry holds its own seed, so the disjoint entries are pairwise
    // distinct.
    assert forall|i: int| 0 <= i < cs.len() implies exists|x: int|
        allowed.contains(x) && (#[trigger] cs[i]).contains(x) by {
        let x = lemma_component_seed(g, allowed, cs[i]);
        lemma_reaches_refl(adj, allowed, x);
        lemma_reach_set_contains(adj, allowed, x, x);
        assert(cs[i].contains(x));
    }
    assert(cs.no_duplicates()) by {
        assert forall|i: int, j: int|
            0 <= i < cs.len() && 0 <= j < cs.len() && i != j implies cs[i] != cs[j] by {
            let a = if i < j {
                i
            } else {
                j
            };
            let b = if i < j {
                j
            } else {
                i
            };
            let x = choose|x: int| allowed.contains(x) && (#[trigger] cs[a]).contains(x);
            assert(cs[a].disjoint(cs[b]));
            assert(!cs[b].contains(x));
        }
    }
    cs.unique_seq_to_set();
    vstd::seq_lib::seq_to_set_is_finite(cs);
    // The entries are exactly the components of the region.
    assert(cs.to_set() =~= g.spec_components(allowed)) by {
        assert forall|c: Set<int>|
            cs.to_set().contains(c) implies g.spec_components(allowed).contains(c) by {
            let i = choose|i: int| 0 <= i < cs.len() && cs[i] == c;
            assert(g.spec_is_component(allowed, cs[i]));
        }
        assert forall|c: Set<int>|
            g.spec_components(allowed).contains(c) implies cs.to_set().contains(c) by {
            let x = lemma_component_seed(g, allowed, c);
            lemma_reaches_refl(adj, allowed, x);
            lemma_reach_set_contains(adj, allowed, x, x);
            let i = choose|i: int| 0 <= i < cs.len() && (#[trigger] cs[i]).contains(x);
            let s = lemma_component_seed(g, allowed, cs[i]);
            lemma_reach_set_contains(adj, allowed, s, x);
            lemma_same_class(adj, allowed, s, x);
            assert(cs[i] == reach_set(adj, allowed, x));
            assert(cs[i] == c);
            assert(cs.contains(c));
        }
    }
}

/// Exhibits two full components as the witness that `sep` is a minimal
/// separator.
pub proof fn lemma_minsep_witness(g: &Graph, sep: Set<int>, c1: Set<int>, c2: Set<int>)
    requires
        sep != Set::<int>::empty(),
        sep.subset_of(g.all_vertices()),
        g.spec_is_component(g.rest_of(sep), c1),
        g.spec_is_component(g.rest_of(sep), c2),
        c1 != c2,
        g.spec_full(sep, c1),
        g.spec_full(sep, c2),
    ensures
        g.spec_is_minimal_separator(sep),
{
    reveal(Graph::spec_is_minimal_separator);
}

/// Recovers the two full components of a minimal separator.
pub proof fn lemma_minsep_components(g: &Graph, sep: Set<int>) -> (cc: (Set<int>, Set<int>))
    requires
        g.spec_is_minimal_separator(sep),
    ensures
        sep != Set::<int>::empty(),
        sep.subset_of(g.all_vertices()),
        g.spec_is_component(g.rest_of(sep), cc.0),
        g.spec_is_component(g.rest_of(sep), cc.1),
        cc.0 != cc.1,
        g.spec_full(sep, cc.0),
        g.spec_full(sep, cc.1),
{
    reveal(Graph::spec_is_minimal_separator);
    choose|c1: Set<int>, c2: Set<int>|
        #![trigger g.spec_full(sep, c1), g.spec_full(sep, c2)]
        {
            &&& g.spec_is_component(g.rest_of(sep), c1)
            &&& g.spec_is_component(g.rest_of(sep), c2)
            &&& c1 != c2
            &&& g.spec_full(sep, c1)
            &&& g.spec_full(sep, c2)
        }
}

impl Graph {
    /// Whether removing `vs` disconnects the graph: whether the remaining
    /// vertices induce strictly more connected components than the whole
    /// graph has.
    pub fn is_separator(&self, vs: &VertexSet) -> (r: bool)
        requires
            self.wf(),
            self.spec_symmetric(),
            vs.cap() == self.spec_n(),
        ensures
            r == self.spec_is_separator(vs@),
    {
        let ghost adj = self.adj_rel();
        let ghost allv = self.all_vertices();
        let ghost restv = self.rest_of(vs@);
        let all = self.vertex_set();
        let rest = all.difference(vs);
        proof {
            assert(rest@ =~= restv);
            assert(symmetric_on(adj, allv)) by {
                assert forall|x: int, y: int|
                    allv.contains(x) && allv.contains(y) && #[trigger] adj(x, y) implies adj(
                    y,
                    x,
                ) by {
                    assert(self.spec_adj(x, y));
                }
            }
            assert(symmetric_on(adj, restv)) by {
                assert forall|x: int, y: int|
                    restv.contains(x) && restv.contains(y) && #[trigger] adj(x, y) implies adj(
                    y,
                    x,
                ) by {
                    assert(self.spec_adj(x, y));
                }
            }
        }
        let comps_all = self.components_of(&all);
        let comps_rest = self.components_of(&rest);
        proof {
            let ca = Seq::new(comps_all@.len(), |i: int| comps_all@[i]@);
            assert forall|v: int|
                allv.contains(v) implies exists|i: int|
                0 <= i < ca.len() && (#[trigger] ca[i]).contains(v) by {
                let i = choose|i: int|
                    0 <= i < comps_all@.len() && (#[trigger] comps_all@[i])@.contains(v);
                assert(ca[i].contains(v));
            }
            lemma_component_count(self, allv, ca);
            let cr = Seq::new(comps_rest@.len(), |i: int| comps_rest@[i]@);
            assert forall|v: int|
                restv.contains(v) implies exists|i: int|
                0 <= i < cr.len() && (#[trigger] cr[i]).contains(v) by {
                let i = choose|i: int|
                    0 <= i < comps_rest@.len() && (#[trigger] comps_rest@[i])@.contains(v);
                assert(cr[i].contains(v));
            }
            lemma_component_count(self, restv, cr);
        }
        comps_rest.len() > comps_all.len()
    }

    /// Whether `sep` is a minimal separator of the undirected graph: whether
    /// at least two components of the graph without `sep` see all of it.
    pub fn is_minimal_separator(&self, sep: &VertexSet) -> (r: bool)
        requires
            self.wf(),
            sep.cap() == self.spec_n(),
            self.spec_symmetric(),
        ensures
            r == self.spec_is_minimal_separator(sep@),
    {
        let ghost adj = self.adj_rel();
        let ghost restv = self.rest_of(sep@);
        proof {
            assert(symmetric_on(adj, restv)) by {
                assert forall|x: int, y: int|
                    restv.contains(x) && restv.contains(y) && #[trigger] adj(x, y) implies adj(
                    y,
                    x,
                ) by {
                    assert(self.spec_adj(x, y));
                }
            }
        }
        if sep.is_empty() {
            proof {
                reveal(Graph::spec_is_minimal_separator);
            }
            return false;
        }
        let fulls = self.full_components(sep);
        if fulls.len() >= 2 {
            proof {
                let c1 = fulls@[0]@;
                let c2 = fulls@[1]@;
                let seed = lemma_component_seed(self, restv, c1);
                lemma_reaches_refl(adj, restv, seed);
                lemma_reach_set_contains(adj, restv, seed, seed);
                assert(c1.contains(seed));
                assert(c1 != c2) by {
                    assert(fulls@[0]@.disjoint(fulls@[1]@));
                    assert(!c2.contains(seed));
                }
                assert(sep@.subset_of(self.all_vertices())) by {
                    sep.lemma_wf();
                    assert forall|x: int| sep@.contains(x) implies self.all_vertices().contains(
                        x,
                    ) by {}
                }
                lemma_minsep_witness(self, sep@, c1, c2);
            }
            true
        } else {
            proof {
                if self.spec_is_minimal_separator(sep@) {
                    let cc = lemma_minsep_components(self, sep@);
                    let x1 = lemma_component_seed(self, restv, cc.0);
                    let x2 = lemma_component_seed(self, restv, cc.1);
                    let i = choose|i: int|
                        0 <= i < fulls@.len() && (#[trigger] fulls@[i])@.contains(x1);
                    let j = choose|j: int|
                        0 <= j < fulls@.len() && (#[trigger] fulls@[j])@.contains(x2);
                    let si = lemma_component_seed(self, restv, fulls@[i]@);
                    lemma_reach_set_contains(adj, restv, si, x1);
                    lemma_same_class(adj, restv, si, x1);
                    assert(fulls@[i]@ == cc.0);
                    let sj = lemma_component_seed(self, restv, fulls@[j]@);
                    lemma_reach_set_contains(adj, restv, sj, x2);
                    lemma_same_class(adj, restv, sj, x2);
                    assert(fulls@[j]@ == cc.1);
                    assert(i != j);
                    assert(false);
                }
            }
            false
        }
    }
}

impl Graph {
    /// Split the components met from the seed region `vs` (in the graph with
    /// `separator` removed) into those that see all of the separator and
    /// those that do not.
    pub fn list_components(&self, vs: &VertexSet, separator: &VertexSet) -> (r: (
        Vec<VertexSet>,
        Vec<VertexSet>,
    ))
        requires
            self.wf(),
            vs.cap() == self.spec_n(),
            separator.cap() == self.spec_n(),
            vs@.disjoint(separator@),
        ensures
            forall|i: int|
                0 <= i < r.0@.len() ==> (#[trigger] r.0@[i]).cap() == self.spec_n()
                    && self.spec_is_component(self.rest_of(separator@), r.0@[i]@)
                    && self.spec_full(separator@, r.0@[i]@),
            forall|i: int|
                0 <= i < r.1@.len() ==> (#[trigger] r.1@[i]).cap() == self.spec_n()
                    && self.spec_is_component(self.rest_of(separator@), r.1@[i]@)
                    && !self.spec_full(separator@, r.1@[i]@),
            forall|v: int|
                vs@.contains(v) ==> (exists|i: int|
                    0 <= i < r.0@.len() && (#[trigger] r.0@[i])@.contains(v)) || (exists|i: int|
                    0 <= i < r.1@.len() && (#[trigger] r.1@[i])@.contains(v)),
    {
        let n = self.matrix.len();
        let ghost adj = self.adj_rel();
        let ghost restv = self.rest_of(separator@);
        let all = self.vertex_set();
        let rest = all.difference(separator);
        proof {
            assert(rest@ =~= restv);
        }
        let mut fulls: Vec<VertexSet> = Vec::new();
        let mut non_fulls: Vec<VertexSet> = Vec::new();
        let mut assigned = VertexSet::new(n);
        let mut v: usize = 0;
        while v < n
            invariant
                self.wf(),
                n == self.spec_n(),
                adj == self.adj_rel(),
                restv == self.rest_of(separator@),
                vs.cap() == n,
                separator.cap() == n,
                vs@.disjoint(separator@),
                rest@ == restv,
                rest.cap() == n,
                assigned.cap() == n,
                v <= n,
                forall|i: int|
                    0 <= i < fulls@.len() ==> (#[trigger] fulls@[i]).cap() == n
                        && self.spec_is_component(restv, fulls@[i]@) && self.spec_full(
                        separator@,
                        fulls@[i]@,
                    ),
                forall|i: int|
                    0 <= i < non_fulls@.len() ==> (#[trigger] non_fulls@[i]).cap() == n
                        && self.spec_is_component(restv, non_fulls@[i]@) && !self.spec_full(
                        separator@,
                        non_fulls@[i]@,
                    ),
                forall|x: int|
                    assigned@.contains(x) ==> (exists|i: int|
                        0 <= i < fulls@.len() && (#[trigger] fulls@[i])@.contains(x)) || (
                    exists|i: int|
                        0 <= i < non_fulls@.len() && (#[trigger] non_fulls@[i])@.contains(x)),
                forall|x: int| 0 <= x < v && vs@.contains(x) ==> assigned@.contains(x),
            decreases n - v,
        {
            if vs.contains(v) && !assigned.contains(v) {
                proof {
                    vs.lemma_wf();
                    assert(restv.contains(v as int));
                }
                let m = self.reach_mask(&rest, v);
                let nb = self.neighbourhood(&m);
                let ghost old_fulls = fulls@;
                let ghost old_non_fulls = non_fulls@;
                let ghost old_assigned = assigned@;
                if separator.is_subset(&nb) {
                    fulls.push(m.duplicate());
                    proof {
                        lemma_component_witness(self, restv, fulls@[old_fulls.len() as int]@, v as int);
                    }
                } else {
                    non_fulls.push(m.duplicate());
                    proof {
                        lemma_component_witness(
                            self,
                            restv,
                            non_fulls@[old_non_fulls.len() as int]@,
                            v as int,
                        );
                    }
                }
                assigned = assigned.union(&m);
                proof {
                    lemma_reaches_refl(adj, restv, v as int);
                    lemma_reach_set_contains(adj, restv, v as int, v as int);
                    assert(m@.contains(v as int));
                    assert forall|x: int|
                        assigned@.contains(x) implies (exists|i: int|
                        0 <= i < fulls@.len() && (#[trigger] fulls@[i])@.contains(x)) || (
                    exists|i: int|
                        0 <= i < non_fulls@.len() && (#[trigger] non_fulls@[i])@.contains(
                            x,
                        )) by {
                        if old_assigned.contains(x) {
                            if exists|i: int|
                                0 <= i < old_fulls.len() && (#[trigger] old_fulls[i])@.contains(x) {
                                let i = choose|i: int|
                                    0 <= i < old_fulls.len() && (#[trigger] old_fulls[i])@.contains(
                                        x,
                                    );
                                assert(fulls@[i]@.contains(x));
                            } else {
                                let i = choose|i: int|
                                    0 <= i < old_non_fulls.len() && (
                                    #[trigger] old_non_fulls[i])@.contains(x);
                                assert(non_fulls@[i]@.contains(x));
                            }
                        } else {
                            assert(m@.contains(x));
                            if fulls@.len() > old_fulls.len() {
                                assert(fulls@[old_fulls.len() as int]@.contains(x));
                            } else {
                                assert(non_fulls@[old_non_fulls.len() as int]@.contains(x));
                            }
                        }
                    }
                }
            }
            v = v + 1;
        }
        let ghost gf = fulls@;
        let ghost gnf = non_fulls@;
        let result = (fulls, non_fulls);
        proof {
            assert(result.0@ == gf);
            assert(result.1@ == gnf);
            assert forall|x: int|
                vs@.contains(x) implies (exists|i: int|
                0 <= i < result.0@.len() && (#[trigger] result.0@[i])@.contains(x)) || (
            exists|i: int|
                0 <= i < result.1@.len() && (#[trigger] result.1@[i])@.contains(x)) by {
                vs.lemma_wf();
                assert(assigned@.contains(x));
                if exists|i: int|
                    0 <= i < result.0@.len() && (#[trigger] result.0@[i])@.contains(x) {
                } else {
                    let i = choose|i: int|
                        0 <= i < result.1@.len() && (#[trigger] result.1@[i])@.contains(x);
                    assert(result.1@[i]@.contains(x));
                }
            }
        }
        result
    }
}

/// Whether the pair `(u, v)` occurs in the edge list.
pub open spec fn pair_mem(s: Seq<(usize, usize)>, u: int, v: int) -> bool {
    exists|k: int| 0 <= k < s.len() && (#[trigger] s[k]).0 == u && s[k].1 == v
}

impl Graph {
    /// The set of directed edges.
    pub open spec fn edge_pairs(&self) -> Set<(int, int)> {
        Set::new(|p: (int, int)| self.spec_adj(p.0, p.1))
    }

    /// The number of directed edges.
    pub open spec fn spec_num_edges(&self) -> nat {
        self.edge_pairs().len()
    }

    /// The edges as a list of ordered pairs, without duplicates.
    pub fn edges(&self) -> (r: Vec<(usize, usize)>)
        requires
            self.wf(),
        ensures
            forall|k: int|
                0 <= k < r@.len() ==> self.spec_adj(
                    (#[trigger] r@[k]).0 as int,
                    r@[k].1 as int,
                ),
            forall|u: int, v: int| #[trigger] self.spec_adj(u, v) ==> pair_mem(r@, u, v),
            r@.len() == self.spec_num_edges(),
    {
        let n = self.matrix.len();
        let mut r: Vec<(usize, usize)> = Vec::new();
        let ghost mut es: Set<(int, int)> = Set::empty();
        let mut v: usize = 0;
        while v < n
            invariant
                self.wf(),
                n == self.spec_n(),
                v <= n,
                es.finite(),
                r@.len() == es.len(),
                forall|p: (int, int)|
                    #[trigger] es.contains(p) <==> self.spec_adj(p.0, p.1) && (p.1 < v),
                forall|k: int|
                    0 <= k < r@.len() ==> self.spec_adj(
                        (#[trigger] r@[k]).0 as int,
                        r@[k].1 as int,
                    ),
                forall|a: int, b: int|
                    self.spec_adj(a, b) && b < v ==> pair_mem(r@, a, b),
            decreases n - v,
        {
            let mut u: usize = 0;
            while u < n
                invariant
                    self.wf(),
                    n == self.spec_n(),
                    v < n,
                    u <= n,
                    es.finite(),
                    r@.len() == es.len(),
                    forall|p: (int, int)|
                        #[trigger] es.contains(p) <==> self.spec_adj(p.0, p.1) && (p.1 < v || (p.1
                            == v && p.0 < u)),
                    forall|k: int|
                        0 <= k < r@.len() ==> self.spec_adj(
                            (#[trigger] r@[k]).0 as int,
                            r@[k].1 as int,
                        ),
                    forall|a: int, b: int|
                        self.spec_adj(a, b) && (b < v || (b == v && a < u)) ==> pair_mem(r@, a, b),
                decreases n - u,
            {
                if u != v && self.matrix[u][v] {
                    let ghost prev = r@;
                    r.push((u, v));
                    proof {
                        assert(self.spec_adj(u as int, v as int));
                        assert(!es.contains((u as int, v as int)));
                        es = es.insert((u as int, v as int));
                        assert(r@[prev.len() as int] == (u, v));
                        assert forall|a: int, b: int| pair_mem(prev, a, b) implies pair_mem(
                            r@,
                            a,
                            b,
                        ) by {
                            let k = choose|k: int|
                                0 <= k < prev.len() && (#[trigger] prev[k]).0 == a && prev[k].1
                                    == b;
                            assert(r@[k] == prev[k]);
                        }
                        assert forall|p: (int, int)|
                            #[trigger] es.contains(p) <==> self.spec_adj(p.0, p.1) && (p.1 < v || (
                            p.1 == v && p.0 < u + 1)) by {}
                    }
                }
                u = u + 1;
            }
            v = v + 1;
        }
        proof {
            assert(es =~= self.edge_pairs());
        }
        r
    }

    /// The number of directed edges.
    pub fn num_edges(&self) -> (r: usize)
        requires
            self.wf(),
        ensures
            r == self.spec_num_edges(),
    {
        let e = self.edges();
        e.len()
    }
}

/// The closed neighbourhood of a single vertex is the vertex together with
/// its out-neighbours.
pub proof fn lemma_neighbourhood_singleton(g: &Graph, v: int)
    ensures
        g.closed_nbhd(Set::<int>::empty().insert(v)) == g.out_set(v).insert(v),
{
    let s = Set::<int>::empty().insert(v);
    assert forall|x: int|
        g.closed_nbhd(s).contains(x) == g.out_set(v).insert(v).contains(x) by {
        if g.out_set(v).insert(v).contains(x) && x != v {
            assert(s.contains(v) && g.spec_adj(v, x));
        }
    }
    assert(g.closed_nbhd(s) =~= g.out_set(v).insert(v));
}


/// The vertex count is never negative.
pub proof fn lemma_n_nonneg(g: &Graph)
    ensures
        g.spec_n() >= 0,
{
}

/// Adjacency holds only between vertices of the graph.
pub broadcast proof fn lemma_adj_bounds(g: &Graph, u: int, v: int)
    ensures
        #[trigger] g.spec_adj(u, v) ==> 0 <= u < g.spec_n() && 0 <= v < g.spec_n(),
{
}


/// A well-formed graph keeps its vertex count within the dense-matrix bound.
pub proof fn lemma_wf_bounds(g: &Graph)
    requires
        g.wf(),
    ensures
        0 <= g.spec_n() <= MAX_N,
{
}


/// A well-formed graph has no self loops.
pub proof fn lemma_no_self_loop(g: &Graph)
    requires
        g.wf(),
    ensures
        forall|a: int| !g.spec_adj(a, a),
{
}

/// No vertex of a well-formed graph has more out-neighbours than there are
/// other vertices.
pub proof fn lemma_deg_bound(g: &Graph, v: int)
    requires
        g.wf(),
        0 <= v < g.spec_n(),
    ensures
        g.spec_deg(v) <= g.spec_n() - 1,
{
    lemma_no_self_loop(g);
    lemma_int_range(0, g.spec_n());
    let others = g.all_vertices().remove(v);
    assert(g.all_vertices().contains(v));
    assert(g.out_set(v).subset_of(others)) by {
        assert forall|x: int| g.out_set(v).contains(x) implies others.contains(x) by {
            assert(g.spec_adj(v, x));
        }
    }
    assert(others.len() == g.spec_n() - 1);
    lemma_len_subset(g.out_set(v), others);
}

/// A full component of a separator is nonempty, avoids the separator, and
/// has the separator as exactly its outer boundary.
pub proof fn lemma_full_class_boundary(g: &Graph, s: Set<int>, c: Set<int>)
    requires
        g.wf(),
        g.spec_symmetric(),
        s.subset_of(g.all_vertices()),
        g.spec_is_component(g.rest_of(s), c),
        g.spec_full(s, c),
    ensures
        g.closed_nbhd(c).difference(c) == s,
        forall|x: int| c.contains(x) ==> g.rest_of(s).contains(x),
        c != Set::<int>::empty(),
{
    let adj = g.adj_rel();
    let restv = g.rest_of(s);
    let seed = lemma_component_seed(g, restv, c);
    lemma_reaches_refl(adj, restv, seed);
    lemma_reach_set_contains(adj, restv, seed, seed);
    assert(c.contains(seed));
    assert forall|x: int| c.contains(x) implies restv.contains(x) by {
        lemma_reach_set_contains(adj, restv, seed, x);
        lemma_reaches_in_allowed(adj, restv, seed, x);
    }
    assert forall|x: int|
        g.closed_nbhd(c).difference(c).contains(x) == s.contains(x) by {
        if g.closed_nbhd(c).difference(c).contains(x) {
            let u = choose|u: int| #[trigger] c.contains(u) && g.spec_adj(u, x);
            if !s.contains(x) {
                assert(restv.contains(x));
                lemma_reach_set_contains(adj, restv, seed, u);
                lemma_reaches_step(adj, restv, seed as int, u, x);
                lemma_reach_set_contains(adj, restv, seed, x);
                assert(c.contains(x));
            }
        }
        if s.contains(x) {
            assert(g.closed_nbhd(c).contains(x));
            assert(!c.contains(x)) by {
                if c.contains(x) {
                    assert(restv.contains(x));
                }
            }
        }
    }
    assert(g.closed_nbhd(c).difference(c) =~= s);
}


/// The out-neighbours of `v` below `j` that lie in `allowed` and are not
/// members of `r`, in ascending order: what one search round appends for
/// the handled vertex `v`.
pub open spec fn fresh_nbrs(g: Graph, allowed: Set<int>, r: Seq<usize>, v: int, j: int) -> Seq<
    usize,
>
    decreases j,
{
    if j <= 0 {
        Seq::empty()
    } else {
        let rest = fresh_nbrs(g, allowed, r, v, j - 1);
        if g.spec_adj(v, j - 1) && allowed.contains(j - 1) && !seq_mem(r, j - 1) {
            rest.push((j - 1) as usize)
        } else {
            rest
        }
    }
}

/// The breadth-first order: starting from the queue `r` with `qi` entries
/// already handled, each round appends the fresh neighbours of the next
/// entry in ascending order, until the queue is exhausted.
pub open spec fn bfs_span(g: Graph, allowed: Set<int>, r: Seq<usize>, qi: int, fuel: nat) -> Seq<
    usize,
>
    decreases fuel,
{
    if fuel == 0 || qi < 0 || qi >= r.len() {
        r
    } else {
        bfs_span(
            g,
            allowed,
            r + fresh_nbrs(g, allowed, r, r[qi] as int, g.spec_n()),
            qi + 1,
            (fuel - 1) as nat,
        )
    }
}


/// The out-neighbours of `v` in `[j, n)` that lie in `allowed` and sit in
/// neither `res` nor `stack`, in descending order: what one depth-first
/// round pushes while scanning downward.
pub open spec fn fresh_stack(
    g: Graph,
    allowed: Set<int>,
    res: Seq<usize>,
    stack: Seq<usize>,
    v: int,
    j: int,
) -> Seq<usize>
    decreases g.spec_n() - j,
{
    if j < 0 || j >= g.spec_n() {
        Seq::empty()
    } else {
        let rest = fresh_stack(g, allowed, res, stack, v, j + 1);
        if g.spec_adj(v, j) && allowed.contains(j) && !seq_mem(res, j) && !seq_mem(stack, j) {
            rest.push(j as usize)
        } else {
            rest
        }
    }
}

/// The depth-first order: each round moves the top of the stack to the
/// output and pushes its fresh neighbours in descending order, so the
/// smallest expands first, until the stack empties.
pub open spec fn dfs_span(
    g: Graph,
    allowed: Set<int>,
    res: Seq<usize>,
    stack: Seq<usize>,
    fuel: nat,
) -> Seq<usize>
    decreases fuel,
{
    if fuel == 0 || stack.len() == 0 {
        res
    } else {
        let v = stack.last();
        let res2 = res.push(v);
        let stack2 = stack.drop_last();
        dfs_span(
            g,
            allowed,
            res2,
            stack2 + fresh_stack(g, allowed, res2, stack2, v as int, 0),
            (fuel - 1) as nat,
        )
    }
}

} // verus!
