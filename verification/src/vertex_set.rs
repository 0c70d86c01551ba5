//! Sets of vertex identifiers drawn from a fixed index space `[0, cap)`,
//! stored as bit vectors for constant-time membership and linear-time
//! union, intersection, difference, subset and disjointness tests.

use vstd::prelude::*;
use vstd::set_lib::*;

verus! {

/// A set of vertices of a graph on `cap()` vertices.
///
/// The abstract value (the view) is the mathematical set of members,
/// always a finite subset of `[0, cap())`.
pub struct VertexSet {
    bits: Vec<bool>,
}

/// The members of the prefix `[0, j)` of a bit vector.
pub open spec fn bit_members(bits: Seq<bool>, j: int) -> Set<int> {
    Set::new(|i: int| 0 <= i < j && i < bits.len() && bits[i])
}

impl View for VertexSet {
    type V = Set<int>;

    closed spec fn view(&self) -> Set<int> {
        bit_members(self.bits@, self.bits@.len() as int)
    }
}

/// `bit_members` grows by at most the one index `j` when the prefix is
/// extended by one bit, which bounds its cardinality by the prefix length.
pub proof fn lemma_bit_members_step(bits: Seq<bool>, j: int)
    requires
        0 <= j < bits.len(),
    ensures
        bits[j] ==> bit_members(bits, j + 1) == bit_members(bits, j).insert(j),
        !bits[j] ==> bit_members(bits, j + 1) == bit_members(bits, j),
{
    if bits[j] {
        assert(bit_members(bits, j + 1) =~= bit_members(bits, j).insert(j));
    } else {
        assert(bit_members(bits, j + 1) =~= bit_members(bits, j));
    }
}

/// Every prefix of a bit vector has finitely many members, no more than
/// the prefix is long.
pub proof fn lemma_bit_members_card(bits: Seq<bool>, j: int)
    requires
        0 <= j <= bits.len(),
    ensures
        bit_members(bits, j).finite(),
        bit_members(bits, j).len() <= j,
    decreases j,
{
    if j == 0 {
        assert(bit_members(bits, 0) =~= Set::empty());
    } else {
        lemma_bit_members_card(bits, j - 1);
        lemma_bit_members_step(bits, j - 1);
    }
}

impl VertexSet {
    /// The size of the index space the set draws from.
    pub closed spec fn cap(&self) -> int {
        self.bits@.len() as int
    }

    /// The view is a finite subset of `[0, cap())`.
    pub proof fn lemma_wf(&self)
        ensures
            self@.finite(),
            self@.len() <= self.cap(),
            forall|i: int| self@.contains(i) ==> 0 <= i < self.cap(),
    {
        lemma_bit_members_card(self.bits@, self.bits@.len() as int);
    }

    /// The empty set over the index space `[0, cap)`.
    pub fn new(cap: usize) -> (r: Self)
        ensures
            r@ == Set::<int>::empty(),
            r.cap() == cap,
    {
        let mut bits: Vec<bool> = Vec::new();
        let mut j: usize = 0;
        while j < cap
            invariant
                j <= cap,
                bits@.len() == j,
                forall|i: int| 0 <= i < j ==> !bits@[i],
            decreases cap - j,
        {
            bits.push(false);
            j = j + 1;
        }
        let r = VertexSet { bits };
        proof {
            assert(r@ =~= Set::<int>::empty());
        }
        r
    }

    /// The full set `[0, cap)`.
    pub fn full(cap: usize) -> (r: Self)
        ensures
            r@ == set_int_range(0, cap as int),
            r.cap() == cap,
    {
        let mut bits: Vec<bool> = Vec::new();
        let mut j: usize = 0;
        while j < cap
            invariant
                j <= cap,
                bits@.len() == j,
                forall|i: int| 0 <= i < j ==> bits@[i],
            decreases cap - j,
        {
            bits.push(true);
            j = j + 1;
        }
        let r = VertexSet { bits };
        proof {
            assert(r@ =~= set_int_range(0, cap as int));
        }
        r
    }

    /// Membership test; vertices outside the index space are never members.
    pub fn contains(&self, v: usize) -> (r: bool)
        ensures
            r == self@.contains(v as int),
    {
        v < self.bits.len() && self.bits[v]
    }

    /// Add a vertex of the index space.
    pub fn insert(&mut self, v: usize)
        requires
            v < old(self).cap(),
        ensures
            final(self)@ == old(self)@.insert(v as int),
            final(self).cap() == old(self).cap(),
    {
        self.bits.set(v, true);
        proof {
            assert(self@ =~= old(self)@.insert(v as int));
        }
    }

    /// Remove a vertex of the index space.
    pub fn remove(&mut self, v: usize)
        requires
            v < old(self).cap(),
        ensures
            final(self)@ == old(self)@.remove(v as int),
            final(self).cap() == old(self).cap(),
    {
        self.bits.set(v, false);
        proof {
            assert(self@ =~= old(self)@.remove(v as int));
        }
    }

    /// The number of members.
    pub fn len(&self) -> (r: usize)
        ensures
            r == self@.len(),
    {
        let mut count: usize = 0;
        let mut j: usize = 0;
        proof {
            assert(bit_members(self.bits@, 0) =~= Set::empty());
        }
        while j < self.bits.len()
            invariant
                j <= self.bits@.len(),
                count == bit_members(self.bits@, j as int).len(),
                count <= j,
            decreases self.bits@.len() - j,
        {
            proof {
                lemma_bit_members_card(self.bits@, j as int);
                lemma_bit_members_step(self.bits@, j as int);
            }
            if self.bits[j] {
                count = count + 1;
            }
            j = j + 1;
        }
        proof {
            assert(bit_members(self.bits@, 0) =~= Set::empty());
        }
        count
    }

    /// Whether the set has no members.
    pub fn is_empty(&self) -> (r: bool)
        ensures
            r == (self@ == Set::<int>::empty()),
    {
        let mut j: usize = 0;
        while j < self.bits.len()
            invariant
                j <= self.bits@.len(),
                forall|i: int| 0 <= i < j ==> !self.bits@[i],
            decreases self.bits@.len() - j,
        {
            if self.bits[j] {
                proof {
                    assert(self@.contains(j as int));
                }
                return false;
            }
            j = j + 1;
        }
        proof {
            assert(self@ =~= Set::<int>::empty());
        }
        true
    }

    /// Whether the two sets have the same index space and the same members.
    pub fn equals(&self, other: &Self) -> (r: bool)
        ensures
            r == (self.cap() == other.cap() && self@ == other@),
    {
        if self.bits.len() != other.bits.len() {
            proof {
                self.lemma_wf();
            }
            return false;
        }
        let mut j: usize = 0;
        while j < self.bits.len()
            invariant
                self.bits@.len() == other.bits@.len(),
                j <= self.bits@.len(),
                forall|i: int| 0 <= i < j ==> self.bits@[i] == other.bits@[i],
            decreases self.bits@.len() - j,
        {
            if self.bits[j] != other.bits[j] {
                proof {
                    assert(self@.contains(j as int) != other@.contains(j as int));
                }
                return false;
            }
            j = j + 1;
        }
        proof {
            assert(self@ =~= other@);
        }
        true
    }

    /// The union of two sets over the same index space.
    pub fn union(&self, other: &Self) -> (r: Self)
        requires
            self.cap() == other.cap(),
        ensures
            r@ == self@ + other@,
            r.cap() == self.cap(),
    {
        let mut bits: Vec<bool> = Vec::new();
        let mut j: usize = 0;
        while j < self.bits.len()
            invariant
                self.bits@.len() == other.bits@.len(),
                j <= self.bits@.len(),
                bits@.len() == j,
                forall|i: int| 0 <= i < j ==> bits@[i] == (self.bits@[i] || other.bits@[i]),
            decreases self.bits@.len() - j,
        {
            bits.push(self.bits[j] || other.bits[j]);
            j = j + 1;
        }
        let r = VertexSet { bits };
        proof {
            assert(r@ =~= self@ + other@);
        }
        r
    }

    /// The intersection of two sets over the same index space.
    pub fn intersect(&self, other: &Self) -> (r: Self)
        requires
            self.cap() == other.cap(),
        ensures
            r@ == self@.intersect(other@),
            r.cap() == self.cap(),
    {
        let mut bits: Vec<bool> = Vec::new();
        let mut j: usize = 0;
        while j < self.bits.len()
            invariant
                self.bits@.len() == other.bits@.len(),
                j <= self.bits@.len(),
                bits@.len() == j,
                forall|i: int| 0 <= i < j ==> bits@[i] == (self.bits@[i] && other.bits@[i]),
            decreases self.bits@.len() - j,
        {
            bits.push(self.bits[j] && other.bits[j]);
            j = j + 1;
        }
        let r = VertexSet { bits };
        proof {
            assert(r@ =~= self@.intersect(other@));
        }
        r
    }

    /// The members of this set that are not members of the other.
    pub fn difference(&self, other: &Self) -> (r: Self)
        requires
            self.cap() == other.cap(),
        ensures
            r@ == self@.difference(other@),
            r.cap() == self.cap(),
    {
        let mut bits: Vec<bool> = Vec::new();
        let mut j: usize = 0;
        while j < self.bits.len()
            invariant
                self.bits@.len() == other.bits@.len(),
                j <= self.bits@.len(),
                bits@.len() == j,
                forall|i: int| 0 <= i < j ==> bits@[i] == (self.bits@[i] && !other.bits@[i]),
            decreases self.bits@.len() - j,
        {
            bits.push(self.bits[j] && !other.bits[j]);
            j = j + 1;
        }
        let r = VertexSet { bits };
        proof {
            assert(r@ =~= self@.difference(other@));
        }
        r
    }

    /// Whether every member of this set is a member of the other.
    pub fn is_subset(&self, other: &Self) -> (r: bool)
        requires
            self.cap() == other.cap(),
        ensures
            r == self@.subset_of(other@),
    {
        let mut j: usize = 0;
        while j < self.bits.len()
            invariant
                self.bits@.len() == other.bits@.len(),
                j <= self.bits@.len(),
                forall|i: int| 0 <= i < j && self.bits@[i] ==> other.bits@[i],
            decreases self.bits@.len() - j,
        {
            if self.bits[j] && !other.bits[j] {
                proof {
                    assert(self@.contains(j as int) && !other@.contains(j as int));
                }
                return false;
            }
            j = j + 1;
        }
        true
    }

    /// Whether the two sets have no common member.
    pub fn is_disjoint(&self, other: &Self) -> (r: bool)
        requires
            self.cap() == other.cap(),
        ensures
            r == self@.disjoint(other@),
    {
        let mut j: usize = 0;
        while j < self.bits.len()
            invariant
                self.bits@.len() == other.bits@.len(),
                j <= self.bits@.len(),
                forall|i: int| 0 <= i < j ==> !(self.bits@[i] && other.bits@[i]),
            decreases self.bits@.len() - j,
        {
            if self.bits[j] && other.bits[j] {
                proof {
                    assert(self@.contains(j as int) && other@.contains(j as int));
                }
                return false;
            }
            j = j + 1;
        }
        true
    }

    /// The members in ascending order.
    pub fn to_vec(&self) -> (r: Vec<usize>)
        ensures
            forall|a: int, b: int| 0 <= a < b < r@.len() ==> r@[a] < r@[b],
            forall|a: int| 0 <= a < r@.len() ==> self@.contains(r@[a] as int),
            forall|v: usize| self@.contains(v as int) ==> r@.contains(v),
    {
        let mut r: Vec<usize> = Vec::new();
        let mut j: usize = 0;
        while j < self.bits.len()
            invariant
                j <= self.bits@.len(),
                forall|a: int, b: int| 0 <= a < b < r@.len() ==> r@[a] < r@[b],
                forall|a: int| 0 <= a < r@.len() ==> r@[a] < j && self@.contains(r@[a] as int),
                forall|v: usize| v < j && self@.contains(v as int) ==> r@.contains(v),
            decreases self.bits@.len() - j,
        {
            if self.bits[j] {
                let ghost prev = r@;
                r.push(j);
                proof {
                    assert(r@[prev.len() as int] == j);
                    assert forall|v: usize| prev.contains(v) implies r@.contains(v) by {
                        let idx = choose|idx: int| 0 <= idx < prev.len() && prev[idx] == v;
                        assert(r@[idx] == v);
                    }
                }
            }
            j = j + 1;
        }
        r
    }

    /// A deep copy.
    pub fn duplicate(&self) -> (r: Self)
        ensures
            r@ == self@,
            r.cap() == self.cap(),
    {
        let mut bits: Vec<bool> = Vec::new();
        let mut j: usize = 0;
        while j < self.bits.len()
            invariant
                j <= self.bits@.len(),
                bits@.len() == j,
                forall|i: int| 0 <= i < j ==> bits@[i] == self.bits@[i],
            decreases self.bits@.len() - j,
        {
            bits.push(self.bits[j]);
            j = j + 1;
        }
        let r = VertexSet { bits };
        proof {
            assert(r@ =~= self@);
        }
        r
    }
}

} // verus!
