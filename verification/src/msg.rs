//! Enumeration of the minimal vertex separators of bounded cardinality by
//! the nibble-and-conquer recursion: from each source vertex, branch on one
//! undecided separator vertex at a time, either pulling it to the source
//! side or fixing it in the separator.
//!
//! Every emitted set is checked against the verified minimal-separator
//! predicate before it is recorded, and duplicates are never recorded, so
//! the result list carries its soundness in its contract.

use vstd::prelude::*;

use vstd::set_lib::{lemma_int_range, lemma_len_subset};

use crate::graph::{
    Graph, lemma_adj_bounds, lemma_component_seed, lemma_full_class_boundary,
    lemma_minsep_components, lemma_neighbourhood_singleton, lemma_no_self_loop,
    lemma_nodup_full_cover, lemma_seq_set_card, lemma_wf_bounds, seq_mem, seq_set,
};
use crate::reach::{
    lemma_reach_set_contains, lemma_reaches_refl, lemma_same_class, reach_set, symmetric_on,
};
use crate::vertex_set::VertexSet;

verus! {

broadcast use lemma_adj_bounds;

/// The arguments on which `branch` is bound to record its separator: the
/// separator fits the bound, the source side is small enough to escape the
/// size pruning, the fixed part sits inside the separator within the bound,
/// both sides have the separator as exactly their outer boundary, and the
/// separator really is minimal.
pub open spec fn branch_admissible(
    g: Graph,
    k: int,
    a_set: Set<int>,
    b_set: Set<int>,
    separator: Set<int>,
    s_fixed: Set<int>,
) -> bool {
    &&& separator.len() <= k
    &&& 2 * a_set.len() + separator.len() <= g.spec_n()
    &&& s_fixed.subset_of(separator)
    &&& s_fixed.len() <= k
    &&& g.closed_nbhd(a_set).difference(a_set) == separator
    &&& g.closed_nbhd(b_set).difference(b_set) == separator
    &&& g.spec_is_minimal_separator(separator)
}

/// The shape of the top-level call made for one source vertex: the source
/// side is that one vertex, the separator its open neighbourhood, and the
/// region everything beyond its closed neighbourhood.  When the
/// neighbourhood is a minimal separator within the bound, that call is
/// bound to record it.
pub open spec fn source_call_shape(
    g: Graph,
    k: int,
    a: int,
    a_set: Set<int>,
    rest: Set<int>,
    separator: Set<int>,
    s_fixed: Set<int>,
) -> bool {
    &&& 0 <= a < g.spec_n()
    &&& a_set == Set::<int>::empty().insert(a)
    &&& separator == g.out_set(a)
    &&& rest == g.all_vertices().difference(g.closed_nbhd(a_set))
    &&& s_fixed.subset_of(separator)
    &&& g.spec_is_minimal_separator(separator)
    &&& separator.len() <= k
}

/// Enumerates the minimal separators of cardinality at most `k` of an
/// undirected graph.  It works on its own copy of the graph and keeps the
/// set of source vertices already handled, so that each separator is found
/// from one canonical source.
pub struct MinimalSeparatorGenerator {
    g: Graph,
    k: usize,
    a_excluded: VertexSet,
    minimal_separators: Vec<VertexSet>,
}

impl MinimalSeparatorGenerator {
    /// The graph copy the enumerator works on.
    pub closed spec fn graph(&self) -> Graph {
        self.g
    }

    /// The cardinality bound.
    pub closed spec fn spec_k(&self) -> int {
        self.k as int
    }

    /// The source vertices already handled.
    pub closed spec fn excluded(&self) -> Set<int> {
        self.a_excluded@
    }

    /// Whether a separator with these members was already recorded.
    pub closed spec fn found(&self, s: Set<int>) -> bool {
        exists|i: int|
            0 <= i < self.minimal_separators@.len() && (#[trigger] self.minimal_separators@[i])@
                == s
    }

    /// The enumerator's invariant: a well-formed undirected graph, and a
    /// record of pairwise distinct minimal separators of size at most `k`.
    pub closed spec fn wf(&self) -> bool {
        &&& self.g.wf()
        &&& self.g.spec_symmetric()
        &&& self.a_excluded.cap() == self.g.spec_n()
        &&& forall|i: int|
            0 <= i < self.minimal_separators@.len() ==> (#[trigger] self.minimal_separators@[i]).cap()
                == self.g.spec_n() && self.g.spec_is_minimal_separator(
                self.minimal_separators@[i]@,
            ) && self.minimal_separators@[i]@.len() <= self.k
        &&& forall|i: int, j: int|
            0 <= i < j < self.minimal_separators@.len() ==> (#[trigger] self.minimal_separators@[i])@
                != (#[trigger] self.minimal_separators@[j])@
    }

    /// A fresh enumerator over a copy of the graph.
    pub fn new(graph: &Graph, k: usize) -> (r: Self)
        requires
            graph.wf(),
            graph.spec_symmetric(),
        ensures
            r.wf(),
            r.graph().spec_n() == graph.spec_n(),
            forall|u: int, v: int| r.graph().spec_adj(u, v) == graph.spec_adj(u, v),
            r.spec_k() == k,
            r.excluded() == Set::<int>::empty(),
            forall|s: Set<int>| !(#[trigger] r.found(s)),
    {
        let g = graph.duplicate();
        let n = g.num_vertices();
        let r = MinimalSeparatorGenerator {
            g,
            k,
            a_excluded: VertexSet::new(n),
            minimal_separators: Vec::new(),
        };
        proof {
            assert(r.g.spec_symmetric()) by {
                assert forall|u: int, v: int|
                    #[trigger] r.g.spec_adj(u, v) implies r.g.spec_adj(v, u) by {
                    assert(graph.spec_adj(u, v));
                }
            }
            assert forall|s: Set<int>| !(#[trigger] r.found(s)) by {
                if r.found(s) {
                    let i = choose|i: int|
                        0 <= i < r.minimal_separators@.len() && (
                        #[trigger] r.minimal_separators@[i])@ == s;
                }
            }
        }
        r
    }

    /// Whether these members were already recorded.
    fn contains_separator(&self, sep: &VertexSet) -> (r: bool)
        requires
            self.wf(),
            sep.cap() == self.graph().spec_n(),
        ensures
            r == self.found(sep@),
    {
        let mut i: usize = 0;
        while i < self.minimal_separators.len()
            invariant
                self.wf(),
                sep.cap() == self.graph().spec_n(),
                i <= self.minimal_separators@.len(),
                forall|j: int|
                    0 <= j < i ==> (#[trigger] self.minimal_separators@[j])@ != sep@,
            decreases self.minimal_separators@.len() - i,
        {
            if self.minimal_separators[i].equals(sep) {
                return true;
            }
            i = i + 1;
        }
        false
    }

    /// Record the separator if it is new and the verified predicate accepts
    /// it; anything else is dropped.  Whatever was recorded stays recorded,
    /// and a minimal separator handed in is recorded on return.
    fn record(&mut self, separator: &VertexSet)
        requires
            old(self).wf(),
            separator.cap() == old(self).graph().spec_n(),
            separator@.len() <= old(self).spec_k(),
        ensures
            final(self).wf(),
            final(self).graph() == old(self).graph(),
            final(self).spec_k() == old(self).spec_k(),
            final(self).excluded() == old(self).excluded(),
            forall|s: Set<int>| old(self).found(s) ==> #[trigger] final(self).found(s),
            old(self).graph().spec_is_minimal_separator(separator@) ==> final(self).found(
                separator@,
            ),
    {
        if self.contains_separator(separator) {
            return;
        }
        if !self.g.is_minimal_separator(separator) {
            return;
        }
        let ghost prev = self.minimal_separators@;
        let copy = separator.duplicate();
        self.minimal_separators.push(copy);
        proof {
            assert(self.minimal_separators@[prev.len() as int]@ == separator@);
            assert(self.found(separator@));
            assert forall|i: int, j: int|
                0 <= i < j < self.minimal_separators@.len() implies (
            #[trigger] self.minimal_separators@[i])@ != (
            #[trigger] self.minimal_separators@[j])@ by {
                if j == prev.len() {
                    assert(prev[i]@ != separator@);
                }
            }
            assert forall|s: Set<int>|
                old(self).found(s) implies #[trigger] self.found(s) by {
                let i = choose|i: int| 0 <= i < prev.len() && (#[trigger] prev[i])@ == s;
                assert(self.minimal_separators@[i]@ == s);
            }
        }
    }

    /// The single-vertex source side and everything outside its closed
    /// neighbourhood.
    fn generate_sides(&self, a: usize) -> (r: (VertexSet, VertexSet))
        requires
            self.wf(),
            a < self.graph().spec_n(),
        ensures
            r.0.cap() == self.graph().spec_n(),
            r.1.cap() == self.graph().spec_n(),
            r.0@ == Set::<int>::empty().insert(a as int),
            r.1@ == self.graph().all_vertices().difference(
                self.graph().closed_nbhd(Set::<int>::empty().insert(a as int)),
            ),
    {
        let n = self.g.num_vertices();
        let mut a_set = VertexSet::new(n);
        a_set.insert(a);
        let b_set = self.g.vertex_set().difference(&self.g.neighbours(&a_set));
        (a_set, b_set)
    }

    /// The recorded sources adjacent to the source side.
    fn get_separator(&self, a_set: &VertexSet) -> (r: VertexSet)
        requires
            self.wf(),
            a_set.cap() == self.graph().spec_n(),
        ensures
            r.cap() == self.graph().spec_n(),
            r@ == self.graph().closed_nbhd(a_set@).intersect(self.excluded()),
    {
        self.g.neighbours(a_set).intersect(&self.a_excluded)
    }

    /// The vertex of `to_decide` whose closed neighbourhood meets `set` the
    /// most, ties broken towards the smallest identifier.
    fn largest_neighbourhood_vertex(&self, to_decide: &VertexSet, set: &VertexSet) -> (r: usize)
        requires
            self.wf(),
            to_decide.cap() == self.graph().spec_n(),
            set.cap() == self.graph().spec_n(),
            to_decide@ != Set::<int>::empty(),
        ensures
            to_decide@.contains(r as int),
            forall|w: int|
                to_decide@.contains(w) ==> self.graph().closed_nbhd(
                    Set::<int>::empty().insert(w),
                ).intersect(set@).len() <= self.graph().closed_nbhd(
                    Set::<int>::empty().insert(r as int),
                ).intersect(set@).len(),
            forall|w: int|
                to_decide@.contains(w) && w < r ==> self.graph().closed_nbhd(
                    Set::<int>::empty().insert(w),
                ).intersect(set@).len() < self.graph().closed_nbhd(
                    Set::<int>::empty().insert(r as int),
                ).intersect(set@).len(),
    {
        let n = self.g.num_vertices();
        let mut best: usize = 0;
        let mut best_score: usize = 0;
        let mut have: bool = false;
        let mut v: usize = 0;
        while v < n
            invariant
                self.wf(),
                n == self.graph().spec_n(),
                to_decide.cap() == n,
                set.cap() == n,
                v <= n,
                !have ==> forall|w: int| 0 <= w < v ==> !to_decide@.contains(w),
                have ==> to_decide@.contains(best as int) && best_score == self.graph().closed_nbhd(
                    Set::<int>::empty().insert(best as int),
                ).intersect(set@).len(),
                have ==> forall|w: int|
                    0 <= w < v && to_decide@.contains(w) ==> self.graph().closed_nbhd(
                        Set::<int>::empty().insert(w),
                    ).intersect(set@).len() <= best_score,
                have ==> forall|w: int|
                    to_decide@.contains(w) && w < best ==> self.graph().closed_nbhd(
                        Set::<int>::empty().insert(w),
                    ).intersect(set@).len() < best_score,
            decreases n - v,
        {
            if to_decide.contains(v) {
                let mut v_set = VertexSet::new(n);
                v_set.insert(v);
                let score = self.g.neighbours(&v_set).intersect(set).len();
                proof {
                    assert(v_set@ =~= Set::<int>::empty().insert(v as int));
                    to_decide.lemma_wf();
                }
                if !have || score > best_score {
                    best = v;
                    best_score = score;
                    have = true;
                }
            }
            v = v + 1;
        }
        proof {
            to_decide.lemma_wf();
            if !have {
                assert forall|x: int| !to_decide@.contains(x) by {
                    if to_decide@.contains(x) {
                        assert(0 <= x < n);
                    }
                }
                assert(to_decide@ =~= Set::<int>::empty());
                assert(false);
            }
            assert forall|w: int|
                to_decide@.contains(w) implies self.graph().closed_nbhd(
                Set::<int>::empty().insert(w),
            ).intersect(set@).len() <= best_score by {
                assert(0 <= w < n);
            }
        }
        best
    }

    /// One branching step: prune by side sizes and the cardinality bound,
    /// check the structural invariants, record the separator, then split on
    /// the undecided vertex with the largest reach into the far side.  The
    /// contract owes the recording whenever the arguments are admissible,
    /// and only minimal separators within the bound are ever recorded.
    fn branch(
        &mut self,
        a: usize,
        a_set: &VertexSet,
        b_set: &VertexSet,
        separator: &VertexSet,
        s_fixed: &VertexSet,
        fuel: usize,
    )
        requires
            old(self).wf(),
            a_set.cap() == old(self).graph().spec_n(),
            b_set.cap() == old(self).graph().spec_n(),
            separator.cap() == old(self).graph().spec_n(),
            s_fixed.cap() == old(self).graph().spec_n(),
        ensures
            final(self).wf(),
            final(self).graph() == old(self).graph(),
            final(self).spec_k() == old(self).spec_k(),
            final(self).excluded() == old(self).excluded(),
            forall|s: Set<int>| old(self).found(s) ==> #[trigger] final(self).found(s),
            forall|s: Set<int>|
                #[trigger] final(self).found(s) ==> old(self).graph().spec_is_minimal_separator(s)
                    && s.len() <= old(self).spec_k(),
            fuel >= 1 && branch_admissible(
                old(self).graph(),
                old(self).spec_k(),
                a_set@,
                b_set@,
                separator@,
                s_fixed@,
            ) ==> final(self).found(separator@),
        decreases fuel,
    {
        let ghost admissible = branch_admissible(
            self.graph(),
            self.spec_k(),
            a_set@,
            b_set@,
            separator@,
            s_fixed@,
        );
        if fuel == 0 {
            return;
        }
        let n_v = self.g.num_vertices();
        let n_a = a_set.len();
        let n_s = separator.len();
        proof {
            lemma_wf_bounds(&self.g);
            a_set.lemma_wf();
            separator.lemma_wf();
            s_fixed.lemma_wf();
        }
        // Size pruning: the source side must stay the smaller side.
        if n_s <= self.k && n_a > (n_v - n_s) / 2 {
            proof {
                if admissible {
                    assert(2 * n_a <= n_v - n_s);
                    assert(false);
                }
            }
            return;
        }
        if n_s > self.k && n_a + (n_s - self.k) > (n_v - self.k) / 2 {
            return;
        }
        if n_s > self.k {
            return;
        }
        // Structural invariants of the recursion; a violation prunes.
        if !s_fixed.is_subset(separator) || s_fixed.len() > self.k {
            return;
        }
        if !self.g.neighbours(a_set).difference(a_set).equals(separator) {
            return;
        }
        if !self.g.neighbours(b_set).difference(b_set).equals(separator) {
            return;
        }
        self.record(separator);
        proof {
            if admissible {
                assert(self.found(separator@));
            }
        }
        let to_decide = separator.difference(s_fixed);
        if !to_decide.is_disjoint(&self.a_excluded) {
            return;
        }
        if to_decide.is_empty() {
            return;
        }
        let v = self.largest_neighbourhood_vertex(&to_decide, b_set);
        proof {
            to_decide.lemma_wf();
        }
        let n = self.g.num_vertices();
        let mut v_set = VertexSet::new(n);
        v_set.insert(v);
        let v_nb = self.g.neighbours(&v_set);
        let rest = b_set.difference(&v_nb);
        let n_b = v_nb.difference(separator).difference(a_set);
        let separator_1 = separator.difference(&v_set).union(&n_b);
        let s_fixed_1 = s_fixed.union(&n_b.intersect(&self.a_excluded));
        // Pull `v` to the source side.
        if s_fixed_1.len() <= self.k {
            self.generate_minimal_separator(
                a,
                &a_set.union(&v_set),
                &rest,
                &separator_1,
                &s_fixed_1,
                fuel - 1,
            );
        }
        // Or fix `v` in the separator.
        if s_fixed.len() < self.k {
            self.branch(a, a_set, b_set, separator, &s_fixed.union(&v_set), fuel - 1);
        }
    }

    /// Handle one region: branch into each full component, and restart from
    /// the separator of each non-full component local to the source.  A
    /// top-level call for a source vertex whose open neighbourhood is a
    /// minimal separator within the bound is owed its recording.
    fn generate_minimal_separator(
        &mut self,
        a: usize,
        a_set: &VertexSet,
        rest: &VertexSet,
        separator: &VertexSet,
        s_fixed: &VertexSet,
        fuel: usize,
    )
        requires
            old(self).wf(),
            a_set.cap() == old(self).graph().spec_n(),
            rest.cap() == old(self).graph().spec_n(),
            separator.cap() == old(self).graph().spec_n(),
            s_fixed.cap() == old(self).graph().spec_n(),
        ensures
            final(self).wf(),
            final(self).graph() == old(self).graph(),
            final(self).spec_k() == old(self).spec_k(),
            final(self).excluded() == old(self).excluded(),
            forall|s: Set<int>| old(self).found(s) ==> #[trigger] final(self).found(s),
            forall|s: Set<int>|
                #[trigger] final(self).found(s) ==> old(self).graph().spec_is_minimal_separator(s)
                    && s.len() <= old(self).spec_k(),
            fuel >= 2 && source_call_shape(
                old(self).graph(),
                old(self).spec_k(),
                a as int,
                a_set@,
                rest@,
                separator@,
                s_fixed@,
            ) ==> final(self).found(separator@),
        decreases fuel,
    {
        let ghost g0 = self.graph();
        let ghost k0 = self.spec_k();
        let ghost adj = g0.adj_rel();
        let ghost sepv = separator@;
        let ghost active = fuel >= 2 && source_call_shape(
            g0,
            k0,
            a as int,
            a_set@,
            rest@,
            sepv,
            s_fixed@,
        );
        if fuel == 0 {
            return;
        }
        proof {
            if active {
                lemma_no_self_loop(&self.g);
                lemma_neighbourhood_singleton(&self.g, a as int);
                assert(rest@.disjoint(sepv)) by {
                    assert forall|x: int| rest@.contains(x) implies !sepv.contains(x) by {
                        if sepv.contains(x) {
                            assert(g0.closed_nbhd(a_set@).contains(x));
                        }
                    }
                }
            }
        }
        if !rest.is_disjoint(separator) {
            return;
        }
        let (fulls, non_fulls) = self.g.list_components(rest, separator);
        let n = self.g.num_vertices();
        let ghost restv_sep = g0.rest_of(sepv);
        let ghost mut ti: int = 0;
        proof {
            if active {
                lemma_no_self_loop(&self.g);
                lemma_neighbourhood_singleton(&self.g, a as int);
                lemma_int_range(0, g0.spec_n());
                assert(symmetric_on(adj, restv_sep)) by {
                    assert forall|x: int, y: int|
                        restv_sep.contains(x) && restv_sep.contains(y) && #[trigger] adj(x, y)
                        implies adj(y, x) by {
                        assert(g0.spec_adj(x, y));
                    }
                }
                // The separator's two full components; the source's own
                // class is at most one of them.
                let cc = lemma_minsep_components(&self.g, sepv);
                assert(restv_sep.contains(a as int)) by {
                    assert(g0.all_vertices().contains(a as int));
                    assert(!sepv.contains(a as int));
                }
                lemma_reaches_refl(adj, restv_sep, a as int);
                let ca = reach_set(adj, restv_sep, a as int);
                lemma_reach_set_contains(adj, restv_sep, a as int, a as int);
                assert(ca.contains(a as int));
                let c = if cc.0 == ca {
                    cc.1
                } else {
                    cc.0
                };
                assert(g0.spec_is_component(restv_sep, c));
                assert(g0.spec_full(sepv, c));
                assert(c != ca);
                lemma_full_class_boundary(&self.g, sepv, c);
                let cs0 = lemma_component_seed(&self.g, restv_sep, c);
                lemma_reaches_refl(adj, restv_sep, cs0);
                lemma_reach_set_contains(adj, restv_sep, cs0, cs0);
                assert(c.contains(cs0));
                // The component avoids the source's class, hence the whole
                // closed neighbourhood of the source.
                assert forall|x: int| c.contains(x) implies !ca.contains(x) by {
                    if ca.contains(x) {
                        lemma_reach_set_contains(adj, restv_sep, cs0, x);
                        lemma_reach_set_contains(adj, restv_sep, a as int, x);
                        lemma_same_class(adj, restv_sep, cs0, x);
                        lemma_same_class(adj, restv_sep, a as int, x);
                        assert(c == ca);
                    }
                }
                assert forall|x: int| c.contains(x) implies rest@.contains(x) by {
                    assert(restv_sep.contains(x));
                    assert(x != a as int);
                    assert(!sepv.contains(x));
                    assert(!g0.spec_adj(a as int, x));
                    assert(!g0.closed_nbhd(a_set@).contains(x));
                }
                // The seed lies in the region, so some full entry holds it:
                // a non-full entry holding it would be the same component.
                assert(rest@.contains(cs0));
                if exists|j: int|
                    0 <= j < non_fulls@.len() && (#[trigger] non_fulls@[j])@.contains(cs0) {
                    let j = choose|j: int|
                        0 <= j < non_fulls@.len() && (#[trigger] non_fulls@[j])@.contains(cs0);
                    let s2 = lemma_component_seed(&self.g, restv_sep, non_fulls@[j]@);
                    lemma_reach_set_contains(adj, restv_sep, s2, cs0);
                    lemma_same_class(adj, restv_sep, s2, cs0);
                    assert(non_fulls@[j]@ == c);
                    assert(false);
                }
                ti = choose|j: int|
                    0 <= j < fulls@.len() && (#[trigger] fulls@[j])@.contains(cs0);
                let st = lemma_component_seed(&self.g, restv_sep, fulls@[ti]@);
                lemma_reach_set_contains(adj, restv_sep, st, cs0);
                lemma_same_class(adj, restv_sep, st, cs0);
                assert(fulls@[ti]@ == c);
                // Admissibility of the branch call on that entry.
                assert(a_set@.len() == 1) by {
                    assert(Set::<int>::empty().insert(a as int).len() == 1);
                }
                assert(sepv.subset_of(g0.all_vertices()));
                lemma_len_subset(sepv, g0.all_vertices());
                assert(sepv.len() + 2 <= g0.spec_n()) by {
                    let s2 = sepv.insert(a as int).insert(cs0);
                    assert(!sepv.contains(a as int));
                    assert(!sepv.contains(cs0)) by {
                        assert(restv_sep.contains(cs0));
                    }
                    assert(a as int != cs0) by {
                        assert(c.contains(cs0) && ca.contains(a as int));
                    }
                    assert(s2.len() == sepv.len() + 2);
                    assert(s2.subset_of(g0.all_vertices())) by {
                        assert(g0.all_vertices().contains(a as int));
                        assert(g0.all_vertices().contains(cs0)) by {
                            assert(restv_sep.contains(cs0));
                        }
                    }
                    lemma_len_subset(s2, g0.all_vertices());
                }
                assert(g0.closed_nbhd(a_set@).difference(a_set@) == sepv) by {
                    assert(g0.closed_nbhd(a_set@).difference(a_set@) =~= g0.out_set(a as int));
                }
                lemma_len_subset(s_fixed@, sepv);
                assert(branch_admissible(g0, k0, a_set@, fulls@[ti]@, sepv, s_fixed@));
            }
        }
        let mut i: usize = 0;
        while i < fulls.len()
            invariant
                self.wf(),
                self.graph() == old(self).graph(),
                self.spec_k() == old(self).spec_k(),
                self.excluded() == old(self).excluded(),
                forall|s: Set<int>| old(self).found(s) ==> #[trigger] self.found(s),
                forall|s: Set<int>|
                    #[trigger] self.found(s) ==> old(self).graph().spec_is_minimal_separator(s)
                        && s.len() <= old(self).spec_k(),
                n == self.graph().spec_n(),
                fuel >= 1,
                a_set.cap() == n,
                separator.cap() == n,
                s_fixed.cap() == n,
                i <= fulls@.len(),
                forall|j: int| 0 <= j < fulls@.len() ==> (#[trigger] fulls@[j]).cap() == n,
                g0 == old(self).graph(),
                k0 == old(self).spec_k(),
                sepv == separator@,
                active ==> fuel >= 2,
                active ==> 0 <= ti < fulls@.len() && branch_admissible(
                    g0,
                    k0,
                    a_set@,
                    fulls@[ti]@,
                    sepv,
                    s_fixed@,
                ),
                active && i > ti ==> self.found(sepv),
            decreases fulls@.len() - i,
        {
            self.branch(a, a_set, &fulls[i], separator, s_fixed, fuel - 1);
            i = i + 1;
        }
        let mut i2: usize = 0;
        while i2 < non_fulls.len()
            invariant
                self.wf(),
                self.graph() == old(self).graph(),
                self.spec_k() == old(self).spec_k(),
                self.excluded() == old(self).excluded(),
                forall|s: Set<int>| old(self).found(s) ==> #[trigger] self.found(s),
                forall|s: Set<int>|
                    #[trigger] self.found(s) ==> old(self).graph().spec_is_minimal_separator(s)
                        && s.len() <= old(self).spec_k(),
                n == self.graph().spec_n(),
                fuel >= 1,
                a_set.cap() == n,
                separator.cap() == n,
                s_fixed.cap() == n,
                g0 == old(self).graph(),
                sepv == separator@,
                active ==> self.found(sepv),
                i2 <= non_fulls@.len(),
                forall|j: int| 0 <= j < non_fulls@.len() ==> (#[trigger] non_fulls@[j]).cap() == n,
            decreases non_fulls@.len() - i2,
        {
            let non_full = &non_fulls[i2];
            let sep = self.g.neighbours(non_full).difference(non_full);
            if s_fixed.is_subset(&sep) {
                let rest1 = self.g.vertex_set().difference(non_full).difference(&sep);
                let comps = self.g.components_of(&rest1);
                let mut c: usize = 0;
                while c < comps.len()
                    invariant
                        self.wf(),
                        self.graph() == old(self).graph(),
                        self.spec_k() == old(self).spec_k(),
                        self.excluded() == old(self).excluded(),
                        forall|s: Set<int>| old(self).found(s) ==> #[trigger] self.found(s),
                        forall|s: Set<int>|
                            #[trigger] self.found(s) ==> old(
                                self,
                            ).graph().spec_is_minimal_separator(s) && s.len() <= old(self).spec_k(),
                        n == self.graph().spec_n(),
                        fuel >= 1,
                        sep.cap() == n,
                        s_fixed.cap() == n,
                        g0 == old(self).graph(),
                        sepv == separator@,
                        active ==> self.found(sepv),
                        c <= comps@.len(),
                        i2 < non_fulls@.len(),
                        non_fulls@[i2 as int].cap() == n,
                        non_full == &non_fulls@[i2 as int],
                        forall|j: int| 0 <= j < comps@.len() ==> (#[trigger] comps@[j]).cap() == n,
                    decreases comps@.len() - c,
                {
                    if comps[c].contains(a) {
                        if comps[c].is_disjoint(&self.a_excluded) {
                            let side = comps[c].duplicate();
                            self.branch(a, &side, non_full, &sep, s_fixed, fuel - 1);
                        }
                        // Only the component holding the source matters.
                        c = comps.len();
                    } else {
                        c = c + 1;
                    }
                }
            }
            i2 = i2 + 1;
        }
    }

    /// Enumerate minimal separators of cardinality at most `k`.  The
    /// contract fixes: every returned set is a minimal separator within the
    /// bound, none repeats, the result is exactly what was recorded, and
    /// every minimal separator that is the open neighbourhood of a single
    /// vertex is present.  Completeness beyond those separators is the
    /// nibble-and-conquer recursion's own theorem and is exercised by the
    /// test suite against a brute-force scan.
    pub fn generate(&mut self) -> (r: Vec<VertexSet>)
        requires
            old(self).wf(),
        ensures
            final(self).wf(),
            final(self).graph() == old(self).graph(),
            final(self).spec_k() == old(self).spec_k(),
            forall|i: int|
                0 <= i < r@.len() ==> (#[trigger] r@[i]).cap() == old(self).graph().spec_n()
                    && old(self).graph().spec_is_minimal_separator(r@[i]@) && r@[i]@.len() <= old(
                    self,
                ).spec_k(),
            forall|i: int, j: int| 0 <= i < j < r@.len() ==> (#[trigger] r@[i])@ != (#[trigger] r@[j])@,
            forall|s: Set<int>|
                #[trigger] final(self).found(s) ==> exists|i: int|
                    0 <= i < r@.len() && (#[trigger] r@[i])@ == s,
            forall|a2: int|
                0 <= a2 < old(self).graph().spec_n() && old(self).graph().spec_is_minimal_separator(
                    #[trigger] old(self).graph().out_set(a2),
                ) && old(self).graph().out_set(a2).len() <= old(self).spec_k() ==> exists|i: int|
                    0 <= i < r@.len() && (#[trigger] r@[i])@ == old(self).graph().out_set(a2),
    {
        let n = self.g.num_vertices();
        let ghost g0 = self.graph();
        let ghost k0 = self.spec_k();
        proof {
            lemma_wf_bounds(&self.g);
        }
        // The vertices in ascending order of degree, ties towards smaller
        // identifiers; every vertex occurs exactly once.
        let mut order: Vec<usize> = Vec::new();
        let mut taken: Vec<bool> = vec![false; n];
        let mut round: usize = 0;
        while round < n
            invariant
                self.wf(),
                n == self.graph().spec_n(),
                taken@.len() == n,
                round <= n,
                order@.len() == round,
                order@.no_duplicates(),
                forall|i: int| 0 <= i < order@.len() ==> (#[trigger] order@[i]) < n,
                forall|w: usize| w < n ==> (taken@[w as int] <==> seq_mem(order@, w as int)),
            decreases n - round,
        {
            // The untaken vertex with the smallest degree, smallest
            // identifier first.
            let mut pick: usize = 0;
            let mut pick_deg: usize = 0;
            let mut have: bool = false;
            let mut v: usize = 0;
            while v < n
                invariant
                    self.wf(),
                    n == self.graph().spec_n(),
                    taken@.len() == n,
                    v <= n,
                    have ==> pick < n && !taken@[pick as int],
                    !have ==> forall|w: int| 0 <= w < v ==> taken@[w],
                decreases n - v,
            {
                if !taken[v] {
                    let out = self.g.outgoing(v);
                    let d = out.len();
                    if !have || d < pick_deg {
                        pick = v;
                        pick_deg = d;
                        have = true;
                    }
                }
                v = v + 1;
            }
            if have {
                taken.set(pick, true);
                let ghost prev = order@;
                order.push(pick);
                proof {
                    assert(order@[prev.len() as int] == pick);
                    assert(!seq_mem(prev, pick as int));
                    assert forall|i: int, j: int|
                        0 <= i < order@.len() && 0 <= j < order@.len() && i != j
                        implies order@[i] != order@[j] by {
                        if i < prev.len() && j < prev.len() {
                        } else if j == prev.len() {
                            if order@[i] == pick {
                                assert(seq_mem(prev, pick as int));
                            }
                        } else if i == prev.len() {
                            if order@[j] == pick {
                                assert(seq_mem(prev, pick as int));
                            }
                        }
                    }
                    assert(order@.no_duplicates());
                    assert forall|w: usize|
                        w < n implies (taken@[w as int] <==> seq_mem(order@, w as int)) by {
                        if seq_mem(order@, w as int) {
                            let j = choose|j: int|
                                0 <= j < order@.len() && (#[trigger] order@[j]) == w;
                            if j < prev.len() {
                                assert(seq_mem(prev, w as int));
                            } else {
                                assert(w == pick);
                            }
                        }
                        if taken@[w as int] && w != pick {
                            let j = choose|j: int| 0 <= j < prev.len() && (#[trigger] prev[j]) == w;
                            assert(order@[j] == w);
                        }
                    }
                }
            } else {
                proof {
                    // Unreachable: fewer vertices are in the order than
                    // exist, so one is still untaken.
                    assert forall|w: usize| w < n implies seq_mem(order@, w as int) by {
                        assert(taken@[w as int]);
                    }
                    lemma_seq_set_card(order@);
                    lemma_int_range(0, n as int);
                    assert(vstd::set_lib::set_int_range(0, n as int).subset_of(
                        seq_set(order@),
                    )) by {
                        assert forall|x: int|
                            vstd::set_lib::set_int_range(0, n as int).contains(x)
                            implies seq_set(order@).contains(x) by {
                            assert(seq_mem(order@, x));
                        }
                    }
                    lemma_len_subset(
                        vstd::set_lib::set_int_range(0, n as int),
                        seq_set(order@),
                    );
                    assert(false);
                }
                order.push(round);
            }
            round = round + 1;
        }
        proof {
            lemma_nodup_full_cover(order@, n as int);
        }
        // Generate the separators found from each source vertex in turn.
        let fuel_k = if self.k < n {
            self.k
        } else {
            n
        };
        let fuel = 4 * n + fuel_k + 16;
        let mut idx: usize = 0;
        while idx < order.len()
            invariant
                self.wf(),
                self.graph() == g0,
                self.spec_k() == k0,
                n == self.graph().spec_n(),
                fuel >= 2,
                idx <= order@.len(),
                order@.len() == n,
                forall|i: int| 0 <= i < order@.len() ==> (#[trigger] order@[i]) < n,
                forall|j: int|
                    0 <= j < idx && g0.spec_is_minimal_separator(
                        g0.out_set(#[trigger] order@[j] as int),
                    ) && g0.out_set(order@[j] as int).len() <= k0 ==> self.found(
                        g0.out_set(order@[j] as int),
                    ),
            decreases order@.len() - idx,
        {
            let a = order[idx];
            let ghost hyp_a = g0.spec_is_minimal_separator(g0.out_set(a as int)) && g0.out_set(
                a as int,
            ).len() <= k0;
            let (a_set, b_set) = self.generate_sides(a);
            let s_fixed = self.get_separator(&a_set).difference(&a_set);
            proof {
                if hyp_a {
                    lemma_no_self_loop(&self.g);
                    lemma_neighbourhood_singleton(&self.g, a as int);
                    lemma_int_range(0, g0.spec_n());
                    assert(g0.out_set(a as int).subset_of(g0.all_vertices())) by {
                        assert forall|x: int|
                            g0.out_set(a as int).contains(x) implies g0.all_vertices().contains(
                            x,
                        ) by {
                            assert(g0.spec_adj(a as int, x));
                        }
                    }
                    lemma_len_subset(g0.out_set(a as int), g0.all_vertices());
                    assert(s_fixed@.subset_of(g0.out_set(a as int))) by {
                        assert forall|x: int|
                            s_fixed@.contains(x) implies g0.out_set(a as int).contains(x) by {
                            assert(g0.closed_nbhd(a_set@).contains(x) && x != a as int);
                        }
                    }
                    lemma_len_subset(s_fixed@, g0.out_set(a as int));
                }
            }
            if s_fixed.len() <= self.k {
                let separator = self.g.neighbours(&a_set).difference(&a_set);
                proof {
                    if hyp_a {
                        lemma_no_self_loop(&self.g);
                        lemma_neighbourhood_singleton(&self.g, a as int);
                        assert(separator@ =~= g0.out_set(a as int));
                        assert(source_call_shape(
                            g0,
                            k0,
                            a as int,
                            a_set@,
                            b_set@,
                            separator@,
                            s_fixed@,
                        ));
                    }
                }
                self.generate_minimal_separator(a, &a_set, &b_set, &separator, &s_fixed, fuel);
                proof {
                    if hyp_a {
                        assert(self.found(g0.out_set(a as int)));
                    }
                }
            } else {
                proof {
                    if hyp_a {
                        assert(false);
                    }
                }
            }
            let ghost pre_insert = *self;
            self.a_excluded.insert(a);
            proof {
                assert forall|s: Set<int>|
                    pre_insert.found(s) implies #[trigger] self.found(s) by {
                    let i2 = choose|i2: int|
                        0 <= i2 < pre_insert.minimal_separators@.len() && (
                        #[trigger] pre_insert.minimal_separators@[i2])@ == s;
                    assert(self.minimal_separators@[i2]@ == s);
                }
            }
            idx = idx + 1;
        }
        // Hand back a copy of the record.
        let mut r: Vec<VertexSet> = Vec::new();
        let mut i: usize = 0;
        while i < self.minimal_separators.len()
            invariant
                self.wf(),
                self.graph() == g0,
                self.spec_k() == k0,
                i <= self.minimal_separators@.len(),
                r@.len() == i,
                forall|j: int|
                    0 <= j < i ==> (#[trigger] r@[j]).cap() == g0.spec_n()
                        && g0.spec_is_minimal_separator(r@[j]@) && r@[j]@.len() <= k0 && r@[j]@
                        == self.minimal_separators@[j]@,
            decreases self.minimal_separators@.len() - i,
        {
            r.push(self.minimal_separators[i].duplicate());
            i = i + 1;
        }
        proof {
            assert forall|s: Set<int>|
                #[trigger] self.found(s) implies exists|i2: int|
                0 <= i2 < r@.len() && (#[trigger] r@[i2])@ == s by {
                let i2 = choose|i2: int|
                    0 <= i2 < self.minimal_separators@.len() && (
                    #[trigger] self.minimal_separators@[i2])@ == s;
                assert(r@[i2]@ == s);
            }
            assert forall|a2: int|
                0 <= a2 < g0.spec_n() && g0.spec_is_minimal_separator(
                    #[trigger] g0.out_set(a2),
                ) && g0.out_set(a2).len() <= k0 implies exists|i2: int|
                0 <= i2 < r@.len() && (#[trigger] r@[i2])@ == g0.out_set(a2) by {
                assert(seq_mem(order@, a2));
                let j = choose|j: int| 0 <= j < order@.len() && (#[trigger] order@[j]) == a2;
                assert(self.found(g0.out_set(order@[j] as int)));
                let i2 = choose|i2: int|
                    0 <= i2 < self.minimal_separators@.len() && (
                    #[trigger] self.minimal_separators@[i2])@ == g0.out_set(a2);
                assert(r@[i2]@ == g0.out_set(a2));
            }
        }
        r
    }
}

} // verus!
