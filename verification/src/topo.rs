//! Topological ordering of the directed graph by Kahn's algorithm, with
//! zero-indegree vertices queued in ascending order, and the proof that an
//! ordering exists exactly when the graph has no directed cycle.

use vstd::prelude::*;
use vstd::set_lib::{lemma_int_range, lemma_len_subset, set_int_range};

use crate::graph::{
    Graph, lemma_adj_bounds, lemma_n_nonneg, lemma_nodup_bounded_len, lemma_nodup_full_cover,
    lemma_seq_set_card, seq_mem, seq_set,
};
use crate::reach::{is_walk, lemma_pigeonhole};

verus! {

broadcast use lemma_adj_bounds;

/// The in-neighbours of `w` among the first `j` vertices.
pub open spec fn in_prefix(g: &Graph, w: int, j: int) -> Set<int> {
    Set::new(|u: int| 0 <= u < j && g.spec_adj(u, w))
}

/// The in-neighbours of `w` not yet processed, `pset` being the processed set.
pub open spec fn unseen_in(g: &Graph, w: int, pset: Set<int>) -> Set<int> {
    g.in_set(w).difference(pset)
}

impl Graph {
    /// Whether the directed graph has no closed walk.
    #[verifier::opaque]
    pub open spec fn spec_acyclic(&self) -> bool {
        !exists|p: Seq<int>|
            is_walk(self.adj_rel(), self.all_vertices(), p) && p.len() >= 2 && p[0] == p.last()
    }
}

/// A closed walk refutes acyclicity.
pub proof fn lemma_cycle_refutes(g: &Graph, p: Seq<int>)
    requires
        is_walk(g.adj_rel(), g.all_vertices(), p),
        p.len() >= 2,
        p[0] == p.last(),
    ensures
        !g.spec_acyclic(),
{
    reveal(Graph::spec_acyclic);
}

/// Recovers a closed walk from a cyclic graph.
pub proof fn lemma_cycle_witness(g: &Graph) -> (p: Seq<int>)
    requires
        !g.spec_acyclic(),
    ensures
        is_walk(g.adj_rel(), g.all_vertices(), p),
        p.len() >= 2,
        p[0] == p.last(),
{
    reveal(Graph::spec_acyclic);
    choose|p: Seq<int>|
        is_walk(g.adj_rel(), g.all_vertices(), p) && p.len() >= 2 && p[0] == p.last()
}

/// The in-prefix grows by at most the one vertex `j`.
proof fn lemma_in_prefix_step(g: &Graph, w: int, j: int)
    requires
        0 <= j,
    ensures
        g.spec_adj(j, w) ==> in_prefix(g, w, j + 1) == in_prefix(g, w, j).insert(j),
        !g.spec_adj(j, w) ==> in_prefix(g, w, j + 1) == in_prefix(g, w, j),
{
    if g.spec_adj(j, w) {
        assert(in_prefix(g, w, j + 1) =~= in_prefix(g, w, j).insert(j));
    } else {
        assert(in_prefix(g, w, j + 1) =~= in_prefix(g, w, j));
    }
}

/// Every in-prefix is finite, no larger than its length.
proof fn lemma_in_prefix_card(g: &Graph, w: int, j: int)
    requires
        0 <= j,
    ensures
        in_prefix(g, w, j).finite(),
        in_prefix(g, w, j).len() <= j,
    decreases j,
{
    if j == 0 {
        assert(in_prefix(g, w, 0) =~= Set::empty());
    } else {
        lemma_in_prefix_card(g, w, j - 1);
        lemma_in_prefix_step(g, w, j - 1);
    }
}

/// The unprocessed in-neighbour set is finite.
proof fn lemma_unseen_finite(g: &Graph, w: int, pset: Set<int>)
    ensures
        unseen_in(g, w, pset).finite(),
        g.in_set(w).finite(),
{
    lemma_n_nonneg(g);
    lemma_in_prefix_card(g, w, g.spec_n());
    assert(g.in_set(w) =~= in_prefix(g, w, g.spec_n()));
    lemma_int_range(0, g.spec_n());
    assert(unseen_in(g, w, pset).subset_of(g.in_set(w)));
    lemma_len_subset(unseen_in(g, w, pset), g.in_set(w));
}

/// The position of a value in a duplicate-free covering sequence.
spec fn pos_of(s: Seq<usize>, v: int) -> int {
    choose|k: int| 0 <= k < s.len() && s[k] == v
}

proof fn lemma_pos_of(s: Seq<usize>, v: int)
    requires
        seq_mem(s, v),
    ensures
        0 <= pos_of(s, v) < s.len(),
        s[pos_of(s, v)] == v,
{
    let k = choose|k: int| 0 <= k < s.len() && (#[trigger] s[k]) == v;
    assert(0 <= k < s.len() && s[k] == v);
}

/// Along a walk, positions in a topological order strictly increase.
proof fn lemma_walk_pos_increase(g: &Graph, s: Seq<usize>, p: Seq<int>, i: int)
    requires
        s.no_duplicates(),
        forall|k: int, l: int|
            0 <= k < s.len() && 0 <= l < s.len() && #[trigger] g.spec_adj(
                s[k] as int,
                s[l] as int,
            ) ==> k < l,
        forall|v: int| 0 <= v < g.spec_n() ==> seq_mem(s, v),
        is_walk(g.adj_rel(), g.all_vertices(), p),
        0 <= i < p.len(),
    ensures
        seq_mem(s, p[i]),
        pos_of(s, p[i]) >= pos_of(s, p[0]) + i,
    decreases i,
{
    assert(g.all_vertices().contains(p[i]));
    assert(seq_mem(s, p[i]));
    lemma_pos_of(s, p[i]);
    if i > 0 {
        lemma_walk_pos_increase(g, s, p, i - 1);
        lemma_pos_of(s, p[i - 1]);
        let j = i - 1;
        assert((g.adj_rel())(p[j], p[j + 1]));
        assert(g.spec_adj(p[j], p[j + 1]));
        let k = pos_of(s, p[i - 1]);
        let l = pos_of(s, p[i]);
        assert(g.spec_adj(s[k] as int, s[l] as int));
    }
}

/// A covering topological order shows the graph acyclic.
proof fn lemma_topo_acyclic(g: &Graph, s: Seq<usize>)
    requires
        s.no_duplicates(),
        forall|k: int, l: int|
            0 <= k < s.len() && 0 <= l < s.len() && #[trigger] g.spec_adj(
                s[k] as int,
                s[l] as int,
            ) ==> k < l,
        forall|v: int| 0 <= v < g.spec_n() ==> seq_mem(s, v),
    ensures
        g.spec_acyclic(),
{
    if !g.spec_acyclic() {
        let p = lemma_cycle_witness(g);
        lemma_walk_pos_increase(g, s, p, p.len() - 1);
        lemma_pos_of(s, p[0]);
        assert(p.last() == p[0]);
        assert(false);
    }
}

/// Builds a walk of the given length that ends at `start` and stays inside
/// a set every member of which has an in-neighbour in the set.
proof fn build_back_path(g: &Graph, rset: Set<int>, start: int, len: nat) -> (p: Seq<int>)
    requires
        rset.contains(start),
        forall|w: int| #[trigger] rset.contains(w) ==> exists|x: int|
            rset.contains(x) && g.spec_adj(x, w),
        forall|w: int| #[trigger] rset.contains(w) ==> 0 <= w < g.spec_n(),
    ensures
        p.len() == len + 1,
        p.last() == start,
        forall|i: int| 0 <= i < p.len() ==> rset.contains(#[trigger] p[i]),
        forall|i: int| 0 <= i < p.len() - 1 ==> g.spec_adj(#[trigger] p[i], p[i + 1]),
    decreases len,
{
    if len == 0 {
        seq![start]
    } else {
        let q = build_back_path(g, rset, start, (len - 1) as nat);
        let head = q[0];
        assert(rset.contains(head));
        let x = choose|x: int| rset.contains(x) && g.spec_adj(x, head);
        let p = seq![x] + q;
        assert(p.last() == start);
        assert forall|i: int| 0 <= i < p.len() - 1 implies g.spec_adj(
            #[trigger] p[i],
            p[i + 1],
        ) by {
            if i == 0 {
                assert(p[0] == x && p[1] == head);
            } else {
                let j = i - 1;
                assert(p[i] == q[j] && p[i + 1] == q[j + 1]);
                assert(g.spec_adj(q[j], q[j + 1]));
            }
        }
        p
    }
}


/// A completed queue is a covering topological order of an acyclic graph.
proof fn lemma_complete_topo(g: &Graph, s: Seq<usize>)
    requires
        s.no_duplicates(),
        s.len() == g.spec_n(),
        forall|k: int| 0 <= k < s.len() ==> (#[trigger] s[k]) < g.spec_n(),
        forall|k: int, x: int|
            0 <= k < s.len() && #[trigger] g.spec_adj(x, s[k] as int) ==> seq_mem(
                s.subrange(0, k),
                x,
            ),
    ensures
        forall|k: int, l: int|
            0 <= k < s.len() && 0 <= l < s.len() && #[trigger] g.spec_adj(
                s[k] as int,
                s[l] as int,
            ) ==> k < l,
        g.spec_acyclic(),
{
    lemma_n_nonneg(g);
    lemma_nodup_full_cover(s, g.spec_n());
    assert forall|k: int, l: int|
        0 <= k < s.len() && 0 <= l < s.len() && #[trigger] g.spec_adj(s[k] as int, s[l] as int)
        implies k < l by {
        assert(seq_mem(s.subrange(0, l), s[k] as int));
        let k2 = choose|k2: int| 0 <= k2 < l && (#[trigger] s.subrange(0, l)[k2]) == s[k];
        assert(s[k2] == s[k]);
        assert(k2 == k);
    }
    lemma_topo_acyclic(g, s);
}

/// A stalled queue that misses a vertex exposes a cycle among the missing
/// vertices, whose in-counts never reached zero.
/// A set of vertices each of which keeps an in-neighbour inside the set
/// carries a cycle.
#[verifier::spinoff_prover]
proof fn lemma_trapped_set_cyclic(g: &Graph, rset: Set<int>, start: int)
    requires
        rset.contains(start),
        forall|w: int| #[trigger] rset.contains(w) ==> exists|x: int|
            rset.contains(x) && g.spec_adj(x, w),
        forall|w: int| #[trigger] rset.contains(w) ==> 0 <= w < g.spec_n(),
    ensures
        !g.spec_acyclic(),
{
    let n = g.spec_n();
    let p = build_back_path(g, rset, start, (n + 1) as nat);
    assert forall|i: int| 0 <= i < p.len() implies 0 <= #[trigger] p[i] < n by {
        assert(rset.contains(p[i]));
    }
    lemma_pigeonhole(p, n);
    let (i, j): (int, int) = choose|i: int, j: int| 0 <= i < j < p.len() && p[i] == p[j];
    let cyc = p.subrange(i, j + 1);
    assert(cyc.len() >= 2);
    assert(cyc[0] == cyc.last());
    assert(is_walk(g.adj_rel(), g.all_vertices(), cyc)) by {
        assert forall|k: int|
            0 <= k < cyc.len() implies g.all_vertices().contains(#[trigger] cyc[k]) by {
            assert(cyc[k] == p[i + k]);
            assert(rset.contains(p[i + k]));
        }
        assert forall|k: int|
            0 <= k < cyc.len() - 1 implies #[trigger] (g.adj_rel())(cyc[k], cyc[k + 1]) by {
            assert(cyc[k] == p[i + k] && cyc[k + 1] == p[i + k + 1]);
            assert(g.spec_adj(p[i + k], p[i + k + 1]));
        }
    }
    lemma_cycle_refutes(g, cyc);
}

/// A stalled queue that misses a vertex exposes a cycle among the missing
/// vertices, whose in-counts never reached zero.
#[verifier::spinoff_prover]
proof fn lemma_stalled_cyclic(g: &Graph, s: Seq<usize>, indeg: Seq<usize>)
    requires
        s.no_duplicates(),
        s.len() < g.spec_n(),
        forall|k: int| 0 <= k < s.len() ==> (#[trigger] s[k]) < g.spec_n(),
        indeg.len() == g.spec_n(),
        forall|x: int| 0 <= x < g.spec_n() ==> indeg[x] == unseen_in(g, x, seq_set(s)).len(),
        forall|x: int| 0 <= x < g.spec_n() && !seq_mem(s, x) ==> indeg[x] != 0,
    ensures
        !g.spec_acyclic(),
{
    let n = g.spec_n();
    lemma_n_nonneg(g);
    let rset = Set::new(|w3: int| 0 <= w3 < n && !seq_set(s).contains(w3));
    assert(exists|w3: int| rset.contains(w3)) by {
        if forall|w3: int| 0 <= w3 < n ==> seq_set(s).contains(w3) {
            lemma_seq_set_card(s);
            lemma_int_range(0, n);
            assert(set_int_range(0, n).subset_of(seq_set(s)));
            lemma_len_subset(set_int_range(0, n), seq_set(s));
            assert(false);
        }
        let w3 = choose|w3: int| 0 <= w3 < n && !seq_set(s).contains(w3);
        assert(rset.contains(w3));
    }
    assert forall|w3: int| #[trigger] rset.contains(w3) implies exists|x: int|
        rset.contains(x) && g.spec_adj(x, w3) by {
        assert(!seq_mem(s, w3));
        assert(indeg[w3] != 0);
        lemma_unseen_finite(g, w3, seq_set(s));
        assert(unseen_in(g, w3, seq_set(s)) != Set::<int>::empty()) by {
            if unseen_in(g, w3, seq_set(s)).len() == 0 {
                unseen_in(g, w3, seq_set(s)).lemma_len0_is_empty();
            }
        }
        let x = unseen_in(g, w3, seq_set(s)).choose();
        assert(unseen_in(g, w3, seq_set(s)).contains(x));
        assert(g.spec_adj(x, w3));
        assert(rset.contains(x));
    }
    let start = choose|w3: int| rset.contains(w3);
    lemma_trapped_set_cyclic(g, rset, start);
}

impl Graph {
    /// Kahn's algorithm with the zero-indegree vertices handled in ascending
    /// order.  An ordering comes back exactly when the graph is acyclic, and
    /// the ordering lists every vertex once, edges pointing forward.
    #[verifier::rlimit(100)]
    pub fn topological_sort(&self) -> (r: Option<Vec<usize>>)
        requires
            self.wf(),
        ensures
            match r {
                Some(s) => {
                    &&& s@.no_duplicates()
                    &&& s@.len() == self.spec_n()
                    &&& forall|k: int| 0 <= k < s@.len() ==> (#[trigger] s@[k]) < self.spec_n()
                    &&& forall|k: int, l: int|
                        0 <= k < s@.len() && 0 <= l < s@.len() && #[trigger] self.spec_adj(
                            s@[k] as int,
                            s@[l] as int,
                        ) ==> k < l
                    &&& self.spec_acyclic()
                },
                None => !self.spec_acyclic(),
            },
    {
        let n = self.num_vertices();
        // Count the in-neighbours of every vertex.
        let mut indeg: Vec<usize> = Vec::new();
        let mut w: usize = 0;
        while w < n
            invariant
                self.wf(),
                n == self.spec_n(),
                w <= n,
                indeg@.len() == w,
                forall|x: int| 0 <= x < w ==> indeg@[x] == self.in_set(x).len(),
            decreases n - w,
        {
            let mut count: usize = 0;
            let mut u: usize = 0;
            proof {
                assert(in_prefix(self, w as int, 0) =~= Set::empty());
            }
            while u < n
                invariant
                    self.wf(),
                    n == self.spec_n(),
                    w < n,
                    u <= n,
                    count == in_prefix(self, w as int, u as int).len(),
                    count <= u,
                decreases n - u,
            {
                proof {
                    lemma_in_prefix_card(self, w as int, u as int);
                    lemma_in_prefix_step(self, w as int, u as int);
                }
                if self.has_edge(u, w) {
                    count = count + 1;
                }
                u = u + 1;
            }
            proof {
                assert(self.in_set(w as int) =~= in_prefix(self, w as int, n as int));
            }
            indeg.push(count);
            w = w + 1;
        }
        // Queue the vertices with no in-neighbour, in ascending order.
        let mut res: Vec<usize> = Vec::new();
        let mut v: usize = 0;
        while v < n
            invariant
                self.wf(),
                n == self.spec_n(),
                v <= n,
                indeg@.len() == n,
                forall|x: int| 0 <= x < n ==> indeg@[x] == self.in_set(x).len(),
                res@.no_duplicates(),
                res@.len() <= n,
                forall|k: int| 0 <= k < res@.len() ==> (#[trigger] res@[k]) < v,
                forall|k: int|
                    0 <= k < res@.len() ==> self.in_set(#[trigger] res@[k] as int)
                        == Set::<int>::empty(),
                forall|x: usize|
                    x < v && self.in_set(x as int) == Set::<int>::empty() ==> seq_mem(
                        res@,
                        x as int,
                    ),
            decreases n - v,
        {
            if indeg[v] == 0 {
                proof {
                    lemma_unseen_finite(self, v as int, Set::empty());
                    self.in_set(v as int).lemma_len0_is_empty();
                }
                let ghost prev = res@;
                res.push(v);
                proof {
                    assert(res@[prev.len() as int] == v);
                    assert forall|x: int| seq_mem(prev, x) implies seq_mem(res@, x) by {
                        let k = choose|k: int| 0 <= k < prev.len() && (#[trigger] prev[k]) == x;
                        assert(res@[k] == x);
                    }
                    lemma_nodup_bounded_len(res@, n as int);
                }
            } else {
                proof {
                    if self.in_set(v as int) == Set::<int>::empty() {
                        assert(indeg@[v as int] == 0);
                    }
                }
            }
            v = v + 1;
        }
        // Process the queue; decrementing an in-count to zero queues the
        // vertex.
        let mut qi: usize = 0;
        proof {
            let e = seq_set(res@.subrange(0, 0));
            assert(e =~= Set::<int>::empty());
            assert forall|x: int| 0 <= x < n implies indeg@[x] == unseen_in(self, x, e).len() by {
                assert(unseen_in(self, x, e) =~= self.in_set(x));
            }
            assert forall|k: int|
                0 <= k < res@.len() implies unseen_in(self, #[trigger] res@[k] as int, e)
                == Set::<int>::empty() by {
                assert(unseen_in(self, res@[k] as int, e) =~= self.in_set(res@[k] as int));
            }
            assert forall|k: int, x: int|
                0 <= k < res@.len() && #[trigger] self.spec_adj(x, res@[k] as int)
                implies seq_mem(res@.subrange(0, k), x) by {
                assert(self.in_set(res@[k] as int).contains(x));
            }
            assert forall|x: usize|
                x < n && !seq_mem(res@, x as int) implies indeg@[x as int] != 0 by {
                if indeg@[x as int] == 0 {
                    lemma_unseen_finite(self, x as int, Set::empty());
                    self.in_set(x as int).lemma_len0_is_empty();
                }
            }
        }
        while qi < res.len()
            invariant
                self.wf(),
                n == self.spec_n(),
                indeg@.len() == n,
                qi <= res@.len(),
                res@.no_duplicates(),
                res@.len() <= n,
                forall|k: int| 0 <= k < res@.len() ==> (#[trigger] res@[k]) < n,
                forall|x: int|
                    0 <= x < n ==> indeg@[x] == unseen_in(
                        self,
                        x,
                        seq_set(res@.subrange(0, qi as int)),
                    ).len(),
                forall|k: int|
                    0 <= k < res@.len() ==> unseen_in(
                        self,
                        #[trigger] res@[k] as int,
                        seq_set(res@.subrange(0, qi as int)),
                    ) == Set::<int>::empty(),
                forall|k: int, x: int|
                    0 <= k < res@.len() && #[trigger] self.spec_adj(x, res@[k] as int)
                        ==> seq_mem(res@.subrange(0, k), x),
                forall|x: usize| x < n && !seq_mem(res@, x as int) ==> indeg@[x as int] != 0,
            decreases n - qi,
        {
            let u = res[qi];
            let ghost pset = seq_set(res@.subrange(0, qi as int));
            let ghost old_len = res@.len();
            proof {
                assert(!pset.contains(u as int)) by {
                    if seq_mem(res@.subrange(0, qi as int), u as int) {
                        let k = choose|k: int|
                            0 <= k < qi && (#[trigger] res@.subrange(0, qi as int)[k]) == u;
                        assert(res@[k] == res@[qi as int]);
                    }
                }
            }
            let mut w2: usize = 0;
            while w2 < n
                invariant
                    self.wf(),
                    n == self.spec_n(),
                    indeg@.len() == n,
                    qi < old_len,
                    old_len <= res@.len(),
                    u == res@[qi as int],
                    u < n,
                    w2 <= n,
                    pset == seq_set(res@.subrange(0, qi as int)),
                    !pset.contains(u as int),
                    res@.no_duplicates(),
                    res@.len() <= n,
                    forall|k: int| 0 <= k < res@.len() ==> (#[trigger] res@[k]) < n,
                    forall|x: int|
                        0 <= x < w2 ==> indeg@[x] == unseen_in(
                            self,
                            x,
                            pset.insert(u as int),
                        ).len(),
                    forall|x: int|
                        w2 <= x < n ==> indeg@[x] == unseen_in(self, x, pset).len(),
                    forall|k: int|
                        0 <= k < old_len ==> unseen_in(self, #[trigger] res@[k] as int, pset)
                            == Set::<int>::empty(),
                    forall|k: int|
                        old_len <= k < res@.len() ==> unseen_in(
                            self,
                            #[trigger] res@[k] as int,
                            pset.insert(u as int),
                        ) == Set::<int>::empty() && res@[k] < w2,
                    forall|k: int, x: int|
                        0 <= k < res@.len() && #[trigger] self.spec_adj(x, res@[k] as int)
                            ==> seq_mem(res@.subrange(0, k), x),
                    forall|x: usize| x < n && !seq_mem(res@, x as int) ==> indeg@[x as int] != 0,
                decreases n - w2,
            {
                if self.has_edge(u, w2) {
                    proof {
                        lemma_unseen_finite(self, w2 as int, pset);
                        assert(unseen_in(self, w2 as int, pset).contains(u as int));
                        assert(unseen_in(self, w2 as int, pset).len() >= 1) by {
                            if unseen_in(self, w2 as int, pset).len() == 0 {
                                unseen_in(self, w2 as int, pset).lemma_len0_is_empty();
                            }
                        }
                        assert(unseen_in(self, w2 as int, pset.insert(u as int)) =~= unseen_in(
                            self,
                            w2 as int,
                            pset,
                        ).remove(u as int));
                    }
                    let d = indeg[w2] - 1;
                    indeg.set(w2, d);
                    if d == 0 {
                        proof {
                            lemma_unseen_finite(self, w2 as int, pset.insert(u as int));
                            unseen_in(self, w2 as int, pset.insert(u as int)).lemma_len0_is_empty();
                            // The vertex cannot be queued already.
                            if seq_mem(res@, w2 as int) {
                                let k = choose|k: int|
                                    0 <= k < res@.len() && (#[trigger] res@[k]) == w2;
                                if k < old_len {
                                    assert(unseen_in(self, w2 as int, pset).contains(u as int));
                                } else {
                                    assert(res@[k] < w2);
                                }
                                assert(false);
                            }
                        }
                        let ghost prev = res@;
                        res.push(w2);
                        proof {
                            assert(res@[prev.len() as int] == w2);
                            assert forall|x: int| seq_mem(prev, x) implies seq_mem(res@, x) by {
                                let k = choose|k: int|
                                    0 <= k < prev.len() && (#[trigger] prev[k]) == x;
                                assert(res@[k] == x);
                            }
                            assert forall|i: int, j: int|
                                0 <= i < res@.len() && 0 <= j < res@.len() && i != j
                                implies res@[i] != res@[j] by {
                                if i < prev.len() && j < prev.len() {
                                } else if j == prev.len() {
                                    if res@[i] == w2 {
                                        assert(seq_mem(prev, w2 as int));
                                    }
                                } else if i == prev.len() {
                                    if res@[j] == w2 {
                                        assert(seq_mem(prev, w2 as int));
                                    }
                                }
                            }
                            assert(res@.no_duplicates());
                            lemma_nodup_bounded_len(res@, n as int);
                            // The queue prefixes are unchanged.
                            assert forall|k: int|
                                0 <= k < res@.len() && k != prev.len() implies res@.subrange(0, k)
                                == prev.subrange(0, k) by {
                                assert(res@.subrange(0, k) =~= prev.subrange(0, k));
                            }
                            assert(res@.subrange(0, prev.len() as int) =~= prev);
                            // Every in-neighbour of the new entry is queued
                            // before it.
                            assert forall|x: int|
                                #[trigger] self.spec_adj(x, w2 as int) implies seq_mem(
                                res@.subrange(0, prev.len() as int),
                                x,
                            ) by {
                                assert(self.in_set(w2 as int).contains(x));
                                assert(!unseen_in(
                                    self,
                                    w2 as int,
                                    pset.insert(u as int),
                                ).contains(x));
                                if x == u as int {
                                    assert(prev[qi as int] == u);
                                    assert(seq_mem(prev, x));
                                } else {
                                    assert(pset.contains(x));
                                    let k = choose|k: int|
                                        0 <= k < qi && (#[trigger] res@.subrange(
                                            0,
                                            qi as int,
                                        )[k]) == x;
                                    assert(prev[k] == x);
                                    assert(seq_mem(prev, x));
                                }
                            }
                            assert(pset == seq_set(res@.subrange(0, qi as int))) by {
                                assert(res@.subrange(0, qi as int) =~= prev.subrange(0, qi as int));
                            }
                        }
                    }
                } else {
                    proof {
                        assert(unseen_in(self, w2 as int, pset.insert(u as int)) =~= unseen_in(
                            self,
                            w2 as int,
                            pset,
                        ));
                    }
                }
                w2 = w2 + 1;
            }
            proof {
                let npset = seq_set(res@.subrange(0, qi + 1 as int));
                assert(npset =~= pset.insert(u as int)) by {
                    assert(res@.subrange(0, qi + 1 as int) =~= res@.subrange(0, qi as int).push(
                        u,
                    ));
                    assert forall|x: int| npset.contains(x) == pset.insert(u as int).contains(
                        x,
                    ) by {
                        let sub = res@.subrange(0, qi + 1 as int);
                        if seq_mem(sub, x) {
                            let k = choose|k: int| 0 <= k < sub.len() && (#[trigger] sub[k]) == x;
                            if k < qi {
                                assert(res@.subrange(0, qi as int)[k] == x);
                            } else {
                                assert(x == u as int);
                            }
                        }
                        if pset.contains(x) {
                            let k = choose|k: int|
                                0 <= k < qi && (#[trigger] res@.subrange(0, qi as int)[k]) == x;
                            assert(sub[k] == x);
                        }
                        if x == u as int {
                            assert(sub[qi as int] == u);
                        }
                    }
                }
                assert forall|k: int|
                    0 <= k < res@.len() implies unseen_in(self, #[trigger] res@[k] as int, npset)
                    == Set::<int>::empty() by {
                    if k < old_len {
                        assert(unseen_in(self, res@[k] as int, pset) == Set::<int>::empty());
                        assert(unseen_in(self, res@[k] as int, npset) =~= Set::<int>::empty());
                    } else {
                        assert(unseen_in(self, res@[k] as int, pset.insert(u as int))
                            == Set::<int>::empty());
                    }
                }
            }
            qi = qi + 1;
        }
        if res.len() == n {
            proof {
                assert(res@.subrange(0, qi as int) =~= res@);
                lemma_complete_topo(self, res@);
            }
            Some(res)
        } else {
            proof {
                assert(res@.subrange(0, qi as int) =~= res@);
                lemma_nodup_bounded_len(res@, n as int);
                assert forall|x: int|
                    0 <= x < n && !seq_mem(res@, x) implies indeg@[x] != 0 by {
                    let xu = x as usize;
                    assert(xu < n && !seq_mem(res@, xu as int));
                }
                lemma_stalled_cyclic(self, res@, indeg@);
            }
            None
        }
    }
}

} // verus!
