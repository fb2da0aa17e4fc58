//! Finite sets of identities.
//!
//! An [`IdSet`] holds the identities (64-bit Discord snowflakes) that a query
//! resolves to. It is represented as a strictly increasing vector, which makes
//! union, intersection and difference simple merges, and its abstract value is
//! the [`Set<u64>`] of its elements.

use vstd::prelude::*;

verus! {

/// `s` is strictly increasing: no duplicates, ascending order.
pub open spec fn sorted_strict(s: Seq<u64>) -> bool {
    forall|i: int, j: int| 0 <= i < j < s.len() ==> s[i] < s[j]
}

/// Every element of `s` is strictly below `v`.
pub open spec fn all_below(s: Seq<u64>, v: u64) -> bool {
    forall|m: int| 0 <= m < s.len() ==> s[m] < v
}

/// A finite set of identities, stored in strictly increasing order.
pub struct IdSet {
    elems: Vec<u64>,
}

impl View for IdSet {
    type V = Set<u64>;

    closed spec fn view(&self) -> Set<u64> {
        self.elems@.to_set()
    }
}

proof fn lemma_take_step(s: Seq<u64>, k: int)
    requires
        0 <= k < s.len(),
    ensures
        s.take(k + 1) =~= s.take(k).push(s[k]),
{
}

proof fn lemma_to_set_push(s: Seq<u64>, x: u64)
    ensures
        s.push(x).to_set() =~= s.to_set().insert(x),
{
    assert forall|y: u64| s.push(x).to_set().contains(y) implies s.to_set().insert(x).contains(
        y,
    ) by {
        let idx = choose|idx: int| 0 <= idx < s.push(x).len() && s.push(x)[idx] == y;
        if idx < s.len() {
            assert(s[idx] == y);
        }
    }
    assert forall|y: u64| s.to_set().insert(x).contains(y) implies s.push(x).to_set().contains(
        y,
    ) by {
        if y == x {
            assert(s.push(x)[s.len() as int] == y);
        } else {
            let idx = choose|idx: int| 0 <= idx < s.len() && s[idx] == y;
            assert(s.push(x)[idx] == y);
        }
    }
}

impl IdSet {
    /// The set is well formed: its element vector is strictly increasing.
    pub closed spec fn wf(&self) -> bool {
        sorted_strict(self.elems@)
    }

    /// The elements of the set in strictly increasing order.
    pub closed spec fn ordered(&self) -> Seq<u64> {
        self.elems@
    }

    /// The ordered elements enumerate exactly the abstract set, without
    /// duplicates and in ascending order.
    pub proof fn lemma_ordered(&self)
        requires
            self.wf(),
        ensures
            sorted_strict(self.ordered()),
            self.ordered().no_duplicates(),
            self.ordered().to_set() == self@,
            forall|i: int|
                0 <= i < self.ordered().len() ==> self@.contains(#[trigger] self.ordered()[i]),
            self.ordered().len() == self@.len(),
            self@.finite(),
    {
        broadcast use vstd::seq_lib::seq_to_set_is_finite;

        self.elems@.unique_seq_to_set();
        assert forall|i: int| 0 <= i < self.ordered().len() implies self@.contains(
            #[trigger] self.ordered()[i],
        ) by {
            assert(self.elems@.contains(self.elems@[i]));
        }
    }

    /// The empty set.
    pub fn new() -> (r: IdSet)
        ensures
            r.wf(),
            r@ == Set::<u64>::empty(),
            r.ordered() == Seq::<u64>::empty(),
    {
        let r = IdSet { elems: Vec::new() };
        proof {
            assert(r.elems@.to_set() =~= Set::<u64>::empty());
        }
        r
    }

    /// The set holding exactly `v`.
    pub fn singleton(v: u64) -> (r: IdSet)
        ensures
            r.wf(),
            r@ == Set::<u64>::empty().insert(v),
    {
        let mut elems: Vec<u64> = Vec::new();
        elems.push(v);
        let r = IdSet { elems };
        proof {
            assert(r.elems@ =~= Seq::<u64>::empty().push(v));
            lemma_to_set_push(Seq::<u64>::empty(), v);
            assert(Seq::<u64>::empty().to_set() =~= Set::<u64>::empty());
        }
        r
    }

    /// Number of elements.
    pub fn len(&self) -> (r: usize)
        requires
            self.wf(),
        ensures
            r == self@.len(),
            r == self.ordered().len(),
    {
        proof {
            self.lemma_ordered();
        }
        self.elems.len()
    }

    /// True when the set has no elements.
    pub fn is_empty(&self) -> (r: bool)
        requires
            self.wf(),
        ensures
            r == (self@ =~= Set::<u64>::empty()),
    {
        let e = self.elems.len() == 0;
        proof {
            if e {
                assert(self@ =~= Set::<u64>::empty());
            } else {
                assert(self.elems@.contains(self.elems@[0]));
                assert(self@.contains(self.elems@[0]));
            }
        }
        e
    }

    /// The element at position `i` of the ascending enumeration.
    pub fn elem_at(&self, i: usize) -> (r: u64)
        requires
            self.wf(),
            i < self.ordered().len(),
        ensures
            r == self.ordered()[i as int],
            self@.contains(r),
    {
        proof {
            assert(self.elems@.contains(self.elems@[i as int]));
        }
        self.elems[i]
    }

    /// The position of `v` in the ascending enumeration.
    pub fn position_of(&self, v: u64) -> (r: usize)
        requires
            self.wf(),
            self@.contains(v),
        ensures
            r < self.ordered().len(),
            self.ordered()[r as int] == v,
    {
        let n = self.elems.len();
        let mut i: usize = 0;
        while i < n
            invariant
                n == self.elems@.len(),
                0 <= i <= n,
                forall|k: int| 0 <= k < i ==> self.elems@[k] != v,
            decreases n - i,
        {
            if self.elems[i] == v {
                return i;
            }
            i = i + 1;
        }
        proof {
            assert(self.elems@.to_set().contains(v));
            let idx = choose|idx: int| 0 <= idx < self.elems@.len() && self.elems@[idx] == v;
            assert(false);
        }
        0
    }

    /// Build a set from an already strictly increasing vector.
    pub fn from_ordered(v: Vec<u64>) -> (r: IdSet)
        requires
            sorted_strict(v@),
        ensures
            r.wf(),
            r@ == v@.to_set(),
            r.ordered() == v@,
    {
        IdSet { elems: v }
    }

    /// Membership test.
    pub fn contains(&self, v: u64) -> (r: bool)
        requires
            self.wf(),
        ensures
            r == self@.contains(v),
    {
        let n = self.elems.len();
        let mut i: usize = 0;
        while i < n
            invariant
                n == self.elems@.len(),
                0 <= i <= n,
                forall|k: int| 0 <= k < i ==> self.elems@[k] != v,
            decreases n - i,
        {
            if self.elems[i] == v {
                proof {
                    assert(self.elems@.contains(v));
                }
                return true;
            }
            i = i + 1;
        }
        proof {
            assert(!self.elems@.contains(v));
        }
        false
    }

    /// A copy of the elements, ascending.
    pub fn to_vec(&self) -> (r: Vec<u64>)
        requires
            self.wf(),
        ensures
            r@ == self.ordered(),
    {
        let n = self.elems.len();
        let mut out: Vec<u64> = Vec::new();
        let mut i: usize = 0;
        while i < n
            invariant
                n == self.elems@.len(),
                0 <= i <= n,
                out@ =~= self.elems@.take(i as int),
            decreases n - i,
        {
            out.push(self.elems[i]);
            proof {
                lemma_take_step(self.elems@, i as int);
            }
            i = i + 1;
        }
        proof {
            assert(self.elems@.take(n as int) =~= self.elems@);
        }
        out
    }

    /// Build a set from any vector of identities (duplicates collapse).
    pub fn from_vec(v: &Vec<u64>) -> (r: IdSet)
        ensures
            r.wf(),
            r@ == v@.to_set(),
    {
        let mut elems: Vec<u64> = Vec::new();
        let n = v.len();
        let mut i: usize = 0;
        while i < n
            invariant
                n == v@.len(),
                0 <= i <= n,
                sorted_strict(elems@),
                elems@.to_set() == v@.take(i as int).to_set(),
            decreases n - i,
        {
            sorted_insert(&mut elems, v[i]);
            proof {
                lemma_take_step(v@, i as int);
                lemma_to_set_push(v@.take(i as int), v@[i as int]);
            }
            i = i + 1;
        }
        proof {
            assert(v@.take(n as int) =~= v@);
        }
        IdSet { elems }
    }

    /// Insert one identity.
    pub fn insert(&mut self, v: u64)
        requires
            old(self).wf(),
        ensures
            final(self).wf(),
            final(self)@ == old(self)@.insert(v),
    {
        sorted_insert(&mut self.elems, v);
    }

    /// Union of two sets.
    pub fn union(&self, other: &IdSet) -> (r: IdSet)
        requires
            self.wf(),
            other.wf(),
        ensures
            r.wf(),
            r@ == self@.union(other@),
    {
        let a = &self.elems;
        let b = &other.elems;
        let mut out: Vec<u64> = Vec::new();
        let mut i: usize = 0;
        let mut j: usize = 0;
        while i < a.len() || j < b.len()
            invariant
                sorted_strict(a@),
                sorted_strict(b@),
                0 <= i <= a@.len(),
                0 <= j <= b@.len(),
                sorted_strict(out@),
                out@.to_set() == a@.take(i as int).to_set().union(b@.take(j as int).to_set()),
                forall|k: int| i <= k < a@.len() ==> all_below(out@, #[trigger] a@[k]),
                forall|k: int| j <= k < b@.len() ==> all_below(out@, #[trigger] b@[k]),
            decreases a@.len() - i + b@.len() - j,
        {
            let ghost pre = out@;
            if i < a.len() && (j >= b.len() || a[i] <= b[j]) {
                let x = a[i];
                out.push(x);
                proof {
                    lemma_take_step(a@, i as int);
                    lemma_to_set_push(a@.take(i as int), x);
                    lemma_to_set_push(pre, x);
                    if j < b@.len() && a@[i as int] == b@[j as int] {
                        lemma_take_step(b@, j as int);
                        lemma_to_set_push(b@.take(j as int), x);
                        assert(out@.to_set() =~= a@.take(i + 1).to_set().union(
                            b@.take(j + 1).to_set(),
                        ));
                    } else {
                        assert(out@.to_set() =~= a@.take(i + 1).to_set().union(
                            b@.take(j as int).to_set(),
                        ));
                    }
                }
                if j < b.len() && a[i] == b[j] {
                    j = j + 1;
                }
                i = i + 1;
            } else {
                let x = b[j];
                out.push(x);
                proof {
                    lemma_take_step(b@, j as int);
                    lemma_to_set_push(b@.take(j as int), x);
                    lemma_to_set_push(pre, x);
                    assert(out@.to_set() =~= a@.take(i as int).to_set().union(
                        b@.take(j + 1).to_set(),
                    ));
                }
                j = j + 1;
            }
        }
        proof {
            assert(a@.take(a@.len() as int) =~= a@);
            assert(b@.take(b@.len() as int) =~= b@);
        }
        IdSet { elems: out }
    }

    /// Intersection of two sets.
    pub fn intersection(&self, other: &IdSet) -> (r: IdSet)
        requires
            self.wf(),
            other.wf(),
        ensures
            r.wf(),
            r@ == self@.intersect(other@),
    {
        let a = &self.elems;
        let n = a.len();
        let mut out: Vec<u64> = Vec::new();
        let mut i: usize = 0;
        while i < n
            invariant
                n == a@.len(),
                sorted_strict(a@),
                other.wf(),
                0 <= i <= n,
                sorted_strict(out@),
                out@.to_set() == a@.take(i as int).to_set().intersect(other@),
                forall|k: int| i <= k < a@.len() ==> all_below(out@, #[trigger] a@[k]),
            decreases n - i,
        {
            let ghost pre = out@;
            let x = a[i];
            if other.contains(x) {
                out.push(x);
                proof {
                    lemma_to_set_push(pre, x);
                }
            }
            proof {
                lemma_take_step(a@, i as int);
                lemma_to_set_push(a@.take(i as int), x);
                assert(out@.to_set() =~= a@.take(i + 1).to_set().intersect(other@));
            }
            i = i + 1;
        }
        proof {
            assert(a@.take(n as int) =~= a@);
        }
        IdSet { elems: out }
    }

    /// Difference: the elements of `self` that are not in `other`.
    pub fn difference(&self, other: &IdSet) -> (r: IdSet)
        requires
            self.wf(),
            other.wf(),
        ensures
            r.wf(),
            r@ == self@.difference(other@),
    {
        let a = &self.elems;
        let n = a.len();
        let mut out: Vec<u64> = Vec::new();
        let mut i: usize = 0;
        while i < n
            invariant
                n == a@.len(),
                sorted_strict(a@),
                other.wf(),
                0 <= i <= n,
                sorted_strict(out@),
                out@.to_set() == a@.take(i as int).to_set().difference(other@),
                forall|k: int| i <= k < a@.len() ==> all_below(out@, #[trigger] a@[k]),
            decreases n - i,
        {
            let ghost pre = out@;
            let x = a[i];
            if !other.contains(x) {
                out.push(x);
                proof {
                    lemma_to_set_push(pre, x);
                }
            }
            proof {
                lemma_take_step(a@, i as int);
                lemma_to_set_push(a@.take(i as int), x);
                assert(out@.to_set() =~= a@.take(i + 1).to_set().difference(other@));
            }
            i = i + 1;
        }
        proof {
            assert(a@.take(n as int) =~= a@);
        }
        IdSet { elems: out }
    }

    /// Subset test: every element of `self` lies in `other`.
    pub fn is_subset(&self, other: &IdSet) -> (r: bool)
        requires
            self.wf(),
            other.wf(),
        ensures
            r == self@.subset_of(other@),
    {
        let n = self.elems.len();
        let mut i: usize = 0;
        while i < n
            invariant
                n == self.elems@.len(),
                self.wf(),
                other.wf(),
                0 <= i <= n,
                forall|k: int| 0 <= k < i ==> other@.contains(#[trigger] self.elems@[k]),
            decreases n - i,
        {
            if !other.contains(self.elems[i]) {
                proof {
                    assert(self.elems@.contains(self.elems@[i as int]));
                    assert(self@.contains(self.elems@[i as int]));
                }
                return false;
            }
            i = i + 1;
        }
        proof {
            assert forall|v: u64| self@.contains(v) implies other@.contains(v) by {
                let idx = choose|idx: int| 0 <= idx < self.elems@.len() && self.elems@[idx] == v;
                assert(other@.contains(self.elems@[idx]));
            }
        }
        true
    }
}

/// Insert `v` into the strictly increasing vector `elems`, keeping it
/// strictly increasing; a duplicate leaves the vector unchanged.
fn sorted_insert(elems: &mut Vec<u64>, v: u64)
    requires
        sorted_strict(old(elems)@),
    ensures
        sorted_strict(final(elems)@),
        final(elems)@.to_set() == old(elems)@.to_set().insert(v),
{
    let n = elems.len();
    let mut i: usize = 0;
    while i < n && elems[i] < v
        invariant
            n == elems@.len(),
            elems@ == old(elems)@,
            sorted_strict(elems@),
            0 <= i <= n,
            forall|k: int| 0 <= k < i ==> elems@[k] < v,
        decreases n - i,
    {
        i = i + 1;
    }
    if i < n && elems[i] == v {
        proof {
            assert(elems@.contains(elems@[i as int]));
            assert(elems@.to_set() =~= old(elems)@.to_set().insert(v));
        }
        return ;
    }
    elems.insert(i, v);
    proof {
        let pre = old(elems)@;
        let post = elems@;
        assert forall|p: int, q: int| 0 <= p < q < post.len() implies post[p] < post[q] by {
            if p < i && q == i {
                assert(pre[p] < v);
            } else if p == i && q > i {
                assert(post[q] == pre[q - 1]);
                assert(pre[q - 1] >= v) by {
                    if q - 1 == i {
                    } else {
                        assert(pre[i as int] < pre[q - 1]);
                    }
                }
                assert(pre[q - 1] != v);
            } else if p < i && q > i {
                assert(pre[p] < pre[q - 1]);
            } else if p > i && q > i {
                assert(pre[p - 1] < pre[q - 1]);
            } else {
                assert(pre[p] < pre[q]);
            }
        }
        assert forall|y: u64| post.to_set().contains(y) implies pre.to_set().insert(v).contains(
            y,
        ) by {
            let idx = choose|idx: int| 0 <= idx < post.len() && post[idx] == y;
            if idx < i {
                assert(pre[idx] == y);
                assert(pre.contains(y));
            } else if idx == i {
            } else {
                assert(pre[idx - 1] == y);
                assert(pre.contains(y));
            }
        }
        assert forall|y: u64| pre.to_set().insert(v).contains(y) implies post.to_set().contains(
            y,
        ) by {
            if y == v {
                assert(post[i as int] == v);
                assert(post.contains(v));
            } else {
                let idx = choose|idx: int| 0 <= idx < pre.len() && pre[idx] == y;
                if idx < i {
                    assert(post[idx] == y);
                } else {
                    assert(post[idx + 1] == y);
                }
                assert(post.contains(y));
            }
        }
        assert(post.to_set() =~= pre.to_set().insert(v));
    }
}

} // verus!
