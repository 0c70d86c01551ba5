//! Reachability inside a restricted vertex set, over an abstract adjacency
//! relation.  The same theory serves the graph algorithms (search,
//! connected components, separators) and the bag graph of a tree
//! decomposition.

use vstd::prelude::*;

verus! {

/// A directed adjacency relation over integer vertex identifiers.
pub type AdjRel = spec_fn(int, int) -> bool;

/// Whether `p` is a walk under `adj` whose vertices all lie in `allowed`.
pub open spec fn is_walk(adj: AdjRel, allowed: Set<int>, p: Seq<int>) -> bool {
    &&& p.len() >= 1
    &&& forall|i: int| 0 <= i < p.len() ==> allowed.contains(#[trigger] p[i])
    &&& forall|i: int| 0 <= i < p.len() - 1 ==> #[trigger] adj(p[i], p[i + 1])
}

/// Whether some walk under `adj` inside `allowed` leads from `u` to `v`.
#[verifier::opaque]
pub open spec fn reaches(adj: AdjRel, allowed: Set<int>, u: int, v: int) -> bool {
    exists|p: Seq<int>| is_walk(adj, allowed, p) && p[0] == u && p.last() == v
}

/// The set of vertices reachable from `u` inside `allowed`.
#[verifier::opaque]
pub open spec fn reach_set(adj: AdjRel, allowed: Set<int>, u: int) -> Set<int> {
    Set::new(|v: int| reaches(adj, allowed, u, v))
}

/// Membership in a reachability class is exactly reachability.
pub proof fn lemma_reach_set_contains(adj: AdjRel, allowed: Set<int>, u: int, v: int)
    ensures
        reach_set(adj, allowed, u).contains(v) == reaches(adj, allowed, u, v),
{
    reveal(reach_set);
}

/// Whether `s` absorbs every `adj`-step that stays inside `allowed`.
pub open spec fn closed_under(adj: AdjRel, allowed: Set<int>, s: Set<int>) -> bool {
    forall|x: int, y: int|
        s.contains(x) && #[trigger] adj(x, y) && allowed.contains(y) ==> s.contains(y)
}

/// Whether `adj` relates the members of `allowed` symmetrically.
pub open spec fn symmetric_on(adj: AdjRel, allowed: Set<int>) -> bool {
    forall|x: int, y: int|
        allowed.contains(x) && allowed.contains(y) && #[trigger] adj(x, y) ==> adj(y, x)
}

/// A vertex of `allowed` reaches itself.
pub proof fn lemma_reaches_refl(adj: AdjRel, allowed: Set<int>, u: int)
    requires
        allowed.contains(u),
    ensures
        reaches(adj, allowed, u, u),
{
    reveal(reaches);
    let p = seq![u];
    assert(is_walk(adj, allowed, p) && p[0] == u && p.last() == u);
}

/// Both endpoints of a reachability fact lie in `allowed`.
pub proof fn lemma_reaches_in_allowed(adj: AdjRel, allowed: Set<int>, u: int, v: int)
    requires
        reaches(adj, allowed, u, v),
    ensures
        allowed.contains(u),
        allowed.contains(v),
{
    reveal(reaches);
    let p = choose|p: Seq<int>| is_walk(adj, allowed, p) && p[0] == u && p.last() == v;
    assert(allowed.contains(p[0]));
    assert(allowed.contains(p[p.len() - 1]));
}

/// Reachability extends along one adjacency step inside `allowed`.
pub proof fn lemma_reaches_step(adj: AdjRel, allowed: Set<int>, u: int, v: int, w: int)
    requires
        reaches(adj, allowed, u, v),
        adj(v, w),
        allowed.contains(w),
    ensures
        reaches(adj, allowed, u, w),
{
    reveal(reaches);
    let p = choose|p: Seq<int>| is_walk(adj, allowed, p) && p[0] == u && p.last() == v;
    let q = p.push(w);
    assert forall|i: int| 0 <= i < q.len() - 1 implies #[trigger] adj(q[i], q[i + 1]) by {
        if i < p.len() - 1 {
            assert(adj(p[i], p[i + 1]));
        } else {
            assert(q[i] == v && q[i + 1] == w);
        }
    }
    assert(is_walk(adj, allowed, q) && q[0] == u && q.last() == w);
}

/// Reachability is transitive.
pub proof fn lemma_reaches_trans(adj: AdjRel, allowed: Set<int>, u: int, v: int, w: int)
    requires
        reaches(adj, allowed, u, v),
        reaches(adj, allowed, v, w),
    ensures
        reaches(adj, allowed, u, w),
{
    reveal(reaches);
    let p = choose|p: Seq<int>| is_walk(adj, allowed, p) && p[0] == u && p.last() == v;
    let q = choose|q: Seq<int>| is_walk(adj, allowed, q) && q[0] == v && q.last() == w;
    let r = p + q.subrange(1, q.len() as int);
    assert(r[0] == u);
    assert(r.last() == if q.len() == 1 { p.last() } else { q.last() });
    assert forall|i: int| 0 <= i < r.len() - 1 implies #[trigger] adj(r[i], r[i + 1]) by {
        if i < p.len() - 1 {
            assert(adj(p[i], p[i + 1]));
        } else if i == p.len() - 1 {
            assert(r[i] == v);
            if q.len() >= 2 {
                assert(r[i + 1] == q[1]);
                assert(adj(q[0], q[1]));
            }
        } else {
            let j = i - p.len();
            assert(r[i] == q[j + 1] && r[i + 1] == q[j + 2]);
            assert(adj(q[j + 1], q[j + 2]));
        }
    }
    assert(is_walk(adj, allowed, r) && r[0] == u && r.last() == w);
}

/// Every vertex of a walk that starts inside a closed set stays inside it.
proof fn lemma_walk_stays_in_closed(
    adj: AdjRel,
    allowed: Set<int>,
    s: Set<int>,
    p: Seq<int>,
    i: int,
)
    requires
        is_walk(adj, allowed, p),
        s.contains(p[0]),
        closed_under(adj, allowed, s),
        0 <= i < p.len(),
    ensures
        s.contains(p[i]),
    decreases i,
{
    if i > 0 {
        lemma_walk_stays_in_closed(adj, allowed, s, p, i - 1);
        let j = i - 1;
        assert(adj(p[j], p[j + 1]));
        assert(p[j + 1] == p[i]);
        assert(allowed.contains(p[i]));
    }
}

/// A set that contains `u` and absorbs every step inside `allowed`
/// contains everything reachable from `u`.
pub proof fn lemma_reach_in_closed(adj: AdjRel, allowed: Set<int>, s: Set<int>, u: int, v: int)
    requires
        s.contains(u),
        closed_under(adj, allowed, s),
        reaches(adj, allowed, u, v),
    ensures
        s.contains(v),
{
    reveal(reaches);
    let p = choose|p: Seq<int>| is_walk(adj, allowed, p) && p[0] == u && p.last() == v;
    lemma_walk_stays_in_closed(adj, allowed, s, p, p.len() - 1);
}

/// Reachability only grows when `allowed` grows.
pub proof fn lemma_reaches_mono(
    adj: AdjRel,
    allowed1: Set<int>,
    allowed2: Set<int>,
    u: int,
    v: int,
)
    requires
        reaches(adj, allowed1, u, v),
        allowed1.subset_of(allowed2),
    ensures
        reaches(adj, allowed2, u, v),
{
    reveal(reaches);
    let p = choose|p: Seq<int>| is_walk(adj, allowed1, p) && p[0] == u && p.last() == v;
    assert(is_walk(adj, allowed2, p));
}

/// Over a symmetric adjacency, reachability is symmetric: the reversed
/// walk leads back.
pub proof fn lemma_reaches_sym(adj: AdjRel, allowed: Set<int>, u: int, v: int)
    requires
        symmetric_on(adj, allowed),
        reaches(adj, allowed, u, v),
    ensures
        reaches(adj, allowed, v, u),
{
    reveal(reaches);
    let p = choose|p: Seq<int>| is_walk(adj, allowed, p) && p[0] == u && p.last() == v;
    let n = p.len() as int;
    let q = Seq::new(p.len(), |i: int| p[n - 1 - i]);
    assert forall|i: int| 0 <= i < q.len() - 1 implies #[trigger] adj(q[i], q[i + 1]) by {
        let j = n - 2 - i;
        assert(adj(p[j], p[j + 1]));
        assert(allowed.contains(p[j]) && allowed.contains(p[j + 1]));
        assert(q[i] == p[j + 1] && q[i + 1] == p[j]);
    }
    assert(is_walk(adj, allowed, q) && q[0] == v && q.last() == u);
}

/// A sequence longer than the size of its value range repeats a value.
pub proof fn lemma_pigeonhole(s: Seq<int>, n: int)
    requires
        forall|i: int| 0 <= i < s.len() ==> 0 <= #[trigger] s[i] < n,
        s.len() > n,
        n >= 0,
    ensures
        exists|i: int, j: int| 0 <= i < j < s.len() && s[i] == s[j],
{
    if forall|i: int, j: int| 0 <= i < j < s.len() ==> s[i] != s[j] {
        assert(s.no_duplicates()) by {
            assert forall|i: int, j: int|
                0 <= i < s.len() && 0 <= j < s.len() && i != j implies s[i] != s[j] by {
                if i < j {
                    assert(s[i] != s[j]);
                } else {
                    assert(s[j] != s[i]);
                }
            }
        }
        s.unique_seq_to_set();
        vstd::set_lib::lemma_int_range(0, n);
        assert(s.to_set().subset_of(vstd::set_lib::set_int_range(0, n))) by {
            assert forall|v: int| s.to_set().contains(v) implies
                vstd::set_lib::set_int_range(0, n).contains(v) by {
                let i = choose|i: int| 0 <= i < s.len() && s[i] == v;
                assert(0 <= s[i] < n);
            }
        }
        vstd::set_lib::lemma_len_subset(s.to_set(), vstd::set_lib::set_int_range(0, n));
        assert(false);
    }
}


/// Over a symmetric adjacency, two mutually reachable vertices have the
/// same reachability class.
pub proof fn lemma_same_class(adj: AdjRel, allowed: Set<int>, a: int, b: int)
    requires
        symmetric_on(adj, allowed),
        reaches(adj, allowed, a, b),
    ensures
        reach_set(adj, allowed, a) == reach_set(adj, allowed, b),
{
    lemma_reaches_sym(adj, allowed, a, b);
    assert forall|y: int|
        reach_set(adj, allowed, a).contains(y) == reach_set(adj, allowed, b).contains(y) by {
        lemma_reach_set_contains(adj, allowed, a, y);
        lemma_reach_set_contains(adj, allowed, b, y);
        if reaches(adj, allowed, a, y) {
            lemma_reaches_trans(adj, allowed, b, a, y);
        }
        if reaches(adj, allowed, b, y) {
            lemma_reaches_trans(adj, allowed, a, b, y);
        }
    }
    assert(reach_set(adj, allowed, a) =~= reach_set(adj, allowed, b));
}

} // verus!
