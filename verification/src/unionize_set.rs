//! Re-expressing a set as a union of named candidate sets plus outliers.
//!
//! Given a target set of identities and many named candidate sets, the
//! optimizer picks a small family of candidates (each a subset of the target)
//! whose union, together with the remaining "outlier" identities, is exactly
//! the target. Choosing a minimal family is NP-hard; the algorithm is a
//! deterministic greedy approximation over bit vectors, and what is proved of
//! it is the exact-cover and no-redundancy guarantees, not optimality.

use vstd::prelude::*;

use crate::bits::BitBuf;
use crate::bits::bits_of;
use crate::bits::bv_and_assign;
use crate::bits::bv_any;
use crate::bits::bv_clone;
use crate::bits::bv_count_ones;
use crate::bits::bv_get;
use crate::bits::bv_not;
use crate::bits::bv_or_assign;
use crate::bits::bv_set_true;
use crate::bits::bv_zeros;
use crate::bits::count_trues;
use crate::idset::IdSet;
use crate::idset::all_below;
use crate::idset::sorted_strict;

verus! {

/// A named candidate group and its current members.
pub struct NamedSet {
    /// The display name of the group.
    pub name: String,
    /// Its current members.
    pub members: IdSet,
}

/// Results from [`unionize_set`].
pub struct UnionizeSetResult {
    /// The names of the candidate sets whose union was used.
    pub sets: Vec<String>,
    /// Those target identities covered by none of the returned sets.
    pub outliers: IdSet,
}

/// Every candidate's member set is well formed.
pub open spec fn sets_wf(cands: Seq<NamedSet>) -> bool {
    forall|j: int| 0 <= j < cands.len() ==> (#[trigger] cands[j]).members.wf()
}

/// No two candidates share a name.
pub open spec fn distinct_names(cands: Seq<NamedSet>) -> bool {
    forall|p: int, q: int|
        0 <= p < q < cands.len() ==> (#[trigger] cands[p]).name@ != (#[trigger] cands[q]).name@
}

/// The name `n` occurs among the chosen names.
pub open spec fn chosen_has(chosen: Seq<String>, n: Seq<char>) -> bool {
    exists|i: int| 0 <= i < chosen.len() && (#[trigger] chosen[i])@ == n
}

/// The union of the members of every candidate whose name was chosen.
pub open spec fn sel_union(cands: Seq<NamedSet>, chosen: Seq<String>) -> Set<u64> {
    Set::new(
        |v: u64|
            exists|j: int|
                0 <= j < cands.len() && chosen_has(chosen, (#[trigger] cands[j]).name@)
                    && cands[j].members@.contains(v),
    )
}

/// `n` is the name of a candidate whose members lie inside `target`.
pub open spec fn names_subset_candidate(cands: Seq<NamedSet>, target: Set<u64>, n: Seq<char>) -> bool {
    exists|j: int|
        0 <= j < cands.len() && n == (#[trigger] cands[j]).name@ && cands[j].members@.subset_of(
            target,
        )
}

/// The candidate has at least one member.
pub open spec fn has_member(c: NamedSet) -> bool {
    exists|v: u64| c.members@.contains(v)
}

/// `b` has at least one set bit.
pub open spec fn has_set_bit(b: BitBuf) -> bool {
    exists|i: int| 0 <= i < bits_of(b).len() && bits_of(b)[i]
}

proof fn lemma_count_le(a: Seq<bool>, b: Seq<bool>)
    requires
        a.len() == b.len(),
        forall|i: int| 0 <= i < a.len() ==> (a[i] ==> b[i]),
    ensures
        count_trues(a) <= count_trues(b),
    decreases a.len(),
{
    if a.len() > 0 {
        assert(forall|i: int|
            0 <= i < a.drop_last().len() ==> (a.drop_last()[i] ==> b.drop_last()[i]));
        lemma_count_le(a.drop_last(), b.drop_last());
        assert(a.last() == a[a.len() - 1]);
    }
}

proof fn lemma_count_lt(a: Seq<bool>, b: Seq<bool>, w: int)
    requires
        a.len() == b.len(),
        forall|i: int| 0 <= i < a.len() ==> (a[i] ==> b[i]),
        0 <= w < a.len(),
        !a[w],
        b[w],
    ensures
        count_trues(a) < count_trues(b),
    decreases a.len(),
{
    if w == a.len() - 1 {
        lemma_count_le(a.drop_last(), b.drop_last());
    } else {
        assert(forall|i: int|
            0 <= i < a.drop_last().len() ==> (a.drop_last()[i] ==> b.drop_last()[i]));
        lemma_count_lt(a.drop_last(), b.drop_last(), w);
        assert(a.last() == a[a.len() - 1]);
    }
}

proof fn lemma_count_zero(a: Seq<bool>)
    ensures
        (count_trues(a) == 0) <==> (forall|i: int| 0 <= i < a.len() ==> !a[i]),
    decreases a.len(),
{
    if a.len() > 0 {
        lemma_count_zero(a.drop_last());
        assert(a.last() == a[a.len() - 1]);
        assert(forall|i: int| 0 <= i < a.len() - 1 ==> a.drop_last()[i] == a[i]);
    }
}

/// Pointwise inclusion plus at-least-equal population forces equality.
proof fn lemma_count_eq_pointwise(a: Seq<bool>, b: Seq<bool>)
    requires
        a.len() == b.len(),
        forall|i: int| 0 <= i < a.len() ==> (a[i] ==> b[i]),
        count_trues(a) >= count_trues(b),
    ensures
        forall|i: int| 0 <= i < a.len() ==> a[i] == b[i],
{
    assert forall|i: int| 0 <= i < a.len() implies a[i] == b[i] by {
        if !a[i] && b[i] {
            lemma_count_lt(a, b, i);
        }
    }
}

/// The bit pattern of `s` over the universe enumerated by `target`: one bit
/// per target element, set exactly when `s` holds that element.
fn build_bitfield(target: &IdSet, s: &IdSet) -> (r: BitBuf)
    requires
        target.wf(),
        s.wf(),
        s@.subset_of(target@),
    ensures
        bits_of(r).len() == target.ordered().len(),
        forall|i: int|
            0 <= i < target.ordered().len() ==> bits_of(r)[i] == s@.contains(
                #[trigger] target.ordered()[i],
            ),
{
    proof {
        target.lemma_ordered();
        s.lemma_ordered();
    }
    let ghost univ = target.ordered();
    let n = target.len();
    let mut bf = bv_zeros(n);
    let m = s.len();
    let mut k: usize = 0;
    while k < m
        invariant
            target.wf(),
            s.wf(),
            s@.subset_of(target@),
            univ == target.ordered(),
            m == s.ordered().len(),
            n == univ.len(),
            0 <= k <= m,
            bits_of(bf).len() == n,
            forall|i: int|
                0 <= i < n ==> bits_of(bf)[i] == s.ordered().take(k as int).contains(
                    #[trigger] univ[i],
                ),
        decreases m - k,
    {
        let v = s.elem_at(k);
        proof {
            s.lemma_ordered();
            target.lemma_ordered();
            assert(s@.contains(v));
        }
        let p = target.position_of(v);
        let ghost pre = bits_of(bf);
        bv_set_true(&mut bf, p);
        proof {
            assert(s.ordered().take(k as int + 1) =~= s.ordered().take(k as int).push(v));
            assert forall|i: int| 0 <= i < n implies bits_of(bf)[i] == s.ordered().take(
                k as int + 1,
            ).contains(#[trigger] univ[i]) by {
                if i == p {
                    assert(s.ordered().take(k as int + 1)[k as int] == v);
                    assert(s.ordered().take(k as int + 1).contains(univ[i]));
                } else {
                    assert(bits_of(bf)[i] == pre[i]);
                    // univ[i] != v because the enumeration is strictly sorted
                    assert(univ[i] != univ[p as int]);
                    if s.ordered().take(k as int + 1).contains(univ[i]) {
                        let idx = choose|idx: int|
                            0 <= idx < k + 1 && #[trigger] s.ordered().take(k as int + 1)[idx]
                                == univ[i];
                        if idx == k {
                            assert(false);
                        } else {
                            assert(s.ordered().take(k as int)[idx] == univ[i]);
                            assert(s.ordered().take(k as int).contains(univ[i]));
                        }
                    }
                    if s.ordered().take(k as int).contains(univ[i]) {
                        let idx = choose|idx: int|
                            0 <= idx < k && #[trigger] s.ordered().take(k as int)[idx] == univ[i];
                        assert(s.ordered().take(k as int + 1)[idx] == univ[i]);
                    }
                }
            }
        }
        k = k + 1;
    }
    proof {
        assert(s.ordered().take(m as int) =~= s.ordered());
        assert forall|i: int| 0 <= i < n implies bits_of(bf)[i] == s@.contains(
            #[trigger] univ[i],
        ) by {
            assert(bits_of(bf)[i] == s.ordered().contains(univ[i]));
            assert(s.ordered().to_set() == s@);
        }
    }
    bf
}

/// Whether any of the bit vectors still has a set bit.
fn any_nonempty(bfs: &Vec<BitBuf>) -> (r: bool)
    ensures
        r == (exists|k: int| 0 <= k < bfs@.len() && has_set_bit(#[trigger] bfs@[k])),
{
    let n = bfs.len();
    let mut k: usize = 0;
    while k < n
        invariant
            n == bfs@.len(),
            0 <= k <= n,
            forall|m: int| 0 <= m < k ==> !has_set_bit(#[trigger] bfs@[m]),
        decreases n - k,
    {
        if bv_any(&bfs[k]) {
            return true;
        }
        k = k + 1;
    }
    false
}

/// The union of the tied bit vectors other than the one at `skip`.
fn union_except(bfs: &Vec<BitBuf>, ties: &Vec<usize>, skip: usize, n_bits: usize) -> (r: BitBuf)
    requires
        forall|t: int| 0 <= t < ties@.len() ==> (#[trigger] ties@[t]) < bfs@.len(),
        forall|k: int| 0 <= k < bfs@.len() ==> bits_of(#[trigger] bfs@[k]).len() == n_bits,
    ensures
        bits_of(r).len() == n_bits,
{
    let mut acc = bv_zeros(n_bits);
    let n = ties.len();
    let mut t: usize = 0;
    while t < n
        invariant
            n == ties@.len(),
            0 <= t <= n,
            forall|tt: int| 0 <= tt < ties@.len() ==> (#[trigger] ties@[tt]) < bfs@.len(),
            forall|k: int| 0 <= k < bfs@.len() ==> bits_of(#[trigger] bfs@[k]).len() == n_bits,
            bits_of(acc).len() == n_bits,
        decreases n - t,
    {
        if t != skip {
            bv_or_assign(&mut acc, &bfs[ties[t]]);
        }
        t = t + 1;
    }
    acc
}

/// The union of the members of the candidates at the indices in `js`.
spec fn union_over(cands: Seq<NamedSet>, js: Seq<int>) -> Set<u64> {
    Set::new(
        |v: u64|
            exists|p: int| 0 <= p < js.len() && cands[#[trigger] js[p]].members@.contains(v),
    )
}

/// With distinct candidate names, choosing by name is choosing by index.
proof fn lemma_sel_union_char(cands: Seq<NamedSet>, chosen: Seq<String>, js: Seq<int>)
    requires
        distinct_names(cands),
        chosen.len() == js.len(),
        forall|p: int| 0 <= p < js.len() ==> 0 <= #[trigger] js[p] < cands.len(),
        forall|p: int| 0 <= p < js.len() ==> cands[#[trigger] js[p]].name@ == chosen[p]@,
    ensures
        sel_union(cands, chosen) == union_over(cands, js),
{
    assert forall|v: u64| sel_union(cands, chosen).contains(v) implies union_over(
        cands,
        js,
    ).contains(v) by {
        let j = choose|j: int|
            0 <= j < cands.len() && chosen_has(chosen, (#[trigger] cands[j]).name@)
                && cands[j].members@.contains(v);
        let i = choose|i: int| 0 <= i < chosen.len() && (#[trigger] chosen[i])@ == cands[j].name@;
        assert(cands[js[i]].name@ == chosen[i]@);
        if js[i] != j {
            assert(false);
        }
        assert(cands[js[i]].members@.contains(v));
    }
    assert forall|v: u64| union_over(cands, js).contains(v) implies sel_union(
        cands,
        chosen,
    ).contains(v) by {
        let p = choose|p: int| 0 <= p < js.len() && cands[#[trigger] js[p]].members@.contains(v);
        assert(chosen[p]@ == cands[js[p]].name@);
        assert(chosen_has(chosen, cands[js[p]].name@));
    }
    assert(sel_union(cands, chosen) =~= union_over(cands, js));
}

proof fn lemma_union_over_push(cands: Seq<NamedSet>, js: Seq<int>, j: int)
    requires
        0 <= j < cands.len(),
    ensures
        union_over(cands, js.push(j)) == union_over(cands, js).union(cands[j].members@),
{
    assert forall|v: u64| union_over(cands, js.push(j)).contains(v) implies union_over(
        cands,
        js,
    ).union(cands[j].members@).contains(v) by {
        let p = choose|p: int|
            0 <= p < js.push(j).len() && cands[#[trigger] js.push(j)[p]].members@.contains(v);
        if p < js.len() {
            assert(js.push(j)[p] == js[p]);
            assert(union_over(cands, js).contains(v));
        } else {
            assert(js.push(j)[p] == j);
        }
    }
    assert forall|v: u64| union_over(cands, js).union(cands[j].members@).contains(v)
        implies union_over(cands, js.push(j)).contains(v) by {
        if union_over(cands, js).contains(v) {
            let p = choose|p: int|
                0 <= p < js.len() && cands[#[trigger] js[p]].members@.contains(v);
            assert(js.push(j)[p] == js[p]);
        } else {
            assert(js.push(j)[js.len() as int] == j);
        }
    }
    assert(union_over(cands, js.push(j)) =~= union_over(cands, js).union(cands[j].members@));
}

/// Pick the candidate bit vector to take next: one of maximal population,
/// ties broken first in favour of a tied vector disjoint from the other tied
/// vectors, then by the most bits unique to the vector alone.
fn select_candidate(bfs: &Vec<BitBuf>, n_bits: usize) -> (sel: usize)
    requires
        forall|k: int| 0 <= k < bfs@.len() ==> bits_of(#[trigger] bfs@[k]).len() == n_bits,
        exists|k: int| 0 <= k < bfs@.len() && has_set_bit(#[trigger] bfs@[k]),
    ensures
        sel < bfs@.len(),
        has_set_bit(bfs@[sel as int]),
        forall|k: int|
            0 <= k < bfs@.len() ==> count_trues(bits_of(bfs@[sel as int])) >= count_trues(
                bits_of(#[trigger] bfs@[k]),
            ),
{
    let n = bfs.len();
    // Highest population among the candidates.
    let mut max_size: usize = 0;
    let mut k: usize = 0;
    while k < n
        invariant
            n == bfs@.len(),
            0 <= k <= n,
            forall|m: int| 0 <= m < k ==> max_size >= count_trues(bits_of(#[trigger] bfs@[m])),
            max_size == 0 || (exists|m: int|
                0 <= m < k && max_size == count_trues(bits_of(#[trigger] bfs@[m]))),
        decreases n - k,
    {
        let c = bv_count_ones(&bfs[k]);
        if c > max_size {
            max_size = c;
        }
        k = k + 1;
    }
    proof {
        let kw = choose|k: int| 0 <= k < bfs@.len() && has_set_bit(#[trigger] bfs@[k]);
        let iw = choose|i: int| 0 <= i < bits_of(bfs@[kw]).len() && bits_of(bfs@[kw])[i];
        lemma_count_zero(bits_of(bfs@[kw]));
        assert(count_trues(bits_of(bfs@[kw])) > 0);
        assert(max_size > 0);
    }
    // All candidates tied at that population.
    let mut ties: Vec<usize> = Vec::new();
    k = 0;
    while k < n
        invariant
            n == bfs@.len(),
            0 <= k <= n,
            forall|m: int| 0 <= m < n ==> max_size >= count_trues(bits_of(#[trigger] bfs@[m])),
            forall|t: int| 0 <= t < ties@.len() ==> (#[trigger] ties@[t]) < bfs@.len(),
            forall|t: int|
                0 <= t < ties@.len() ==> count_trues(bits_of(bfs@[#[trigger] ties@[t] as int]))
                    == max_size,
            (exists|m: int| 0 <= m < k && count_trues(bits_of(#[trigger] bfs@[m])) == max_size)
                ==> ties@.len() > 0,
        decreases n - k,
    {
        if bv_count_ones(&bfs[k]) == max_size {
            ties.push(k);
        }
        k = k + 1;
    }
    proof {
        assert(exists|m: int| 0 <= m < n && count_trues(bits_of(#[trigger] bfs@[m])) == max_size);
        assert(ties@.len() > 0);
        lemma_count_zero(bits_of(bfs@[ties@[0] as int]));
    }
    if ties.len() == 1 {
        return ties[0];
    }
    // Prefer a tied vector fully disjoint from the union of the other ties:
    // taking it can never be wrong.
    let tn = ties.len();
    let mut t: usize = 0;
    while t < tn
        invariant
            n == bfs@.len(),
            tn == ties@.len(),
            0 <= t <= tn,
            forall|tt: int| 0 <= tt < ties@.len() ==> (#[trigger] ties@[tt]) < bfs@.len(),
            forall|tt: int|
                0 <= tt < ties@.len() ==> count_trues(bits_of(bfs@[#[trigger] ties@[tt] as int]))
                    == max_size,
            forall|m: int| 0 <= m < n ==> max_size >= count_trues(bits_of(#[trigger] bfs@[m])),
            forall|k2: int| 0 <= k2 < bfs@.len() ==> bits_of(#[trigger] bfs@[k2]).len() == n_bits,
            max_size > 0,
        decreases tn - t,
    {
        let u = union_except(bfs, &ties, t, n_bits);
        let mut inter = bv_clone(&bfs[ties[t]]);
        bv_and_assign(&mut inter, &u);
        if bv_count_ones(&inter) == 0 {
            proof {
                lemma_count_zero(bits_of(bfs@[ties@[t as int] as int]));
            }
            return ties[t];
        }
        t = t + 1;
    }
    // Otherwise take the tie with the most bits unique to itself.
    let mut best: usize = 0;
    let mut best_unique: usize = {
        let u0 = union_except(bfs, &ties, 0, n_bits);
        let mut uniq = bv_clone(&bfs[ties[0]]);
        bv_and_assign(&mut uniq, &bv_not(u0));
        bv_count_ones(&uniq)
    };
    t = 1;
    while t < tn
        invariant
            n == bfs@.len(),
            tn == ties@.len(),
            tn > 0,
            1 <= t <= tn,
            best < tn,
            forall|tt: int| 0 <= tt < ties@.len() ==> (#[trigger] ties@[tt]) < bfs@.len(),
            forall|tt: int|
                0 <= tt < ties@.len() ==> count_trues(bits_of(bfs@[#[trigger] ties@[tt] as int]))
                    == max_size,
            forall|m: int| 0 <= m < n ==> max_size >= count_trues(bits_of(#[trigger] bfs@[m])),
            forall|k2: int| 0 <= k2 < bfs@.len() ==> bits_of(#[trigger] bfs@[k2]).len() == n_bits,
            max_size > 0,
        decreases tn - t,
    {
        let u = union_except(bfs, &ties, t, n_bits);
        let mut uniq = bv_clone(&bfs[ties[t]]);
        bv_and_assign(&mut uniq, &bv_not(u));
        let c = bv_count_ones(&uniq);
        if c > best_unique {
            best_unique = c;
            best = t;
        }
        t = t + 1;
    }
    proof {
        lemma_count_zero(bits_of(bfs@[ties@[best as int] as int]));
    }
    ties[best]
}


/// Disqualify candidates that are not subsets of the target; give each
/// survivor its index and its bit pattern over the target universe.
fn filter_candidates(target: &IdSet, preexisting_sets: &Vec<NamedSet>) -> (r: (
    Vec<usize>,
    Vec<BitBuf>,
))
    requires
        target.wf(),
        sets_wf(preexisting_sets@),
    ensures
        r.0@.len() == r.1@.len(),
        forall|k: int| 0 <= k < r.0@.len() ==> (#[trigger] r.0@[k]) < preexisting_sets@.len(),
        forall|k: int|
            0 <= k < r.0@.len() ==> preexisting_sets@[#[trigger] r.0@[k] as int].members@.subset_of(
                target@,
            ),
        forall|k: int|
            0 <= k < r.1@.len() ==> bits_of(#[trigger] r.1@[k]).len() == target.ordered().len(),
        forall|k: int, i: int|
            0 <= k < r.1@.len() && 0 <= i < target.ordered().len()
                ==> #[trigger] bits_of(r.1@[k])[i]
                == preexisting_sets@[r.0@[k] as int].members@.contains(target.ordered()[i]),
        forall|j: int|
            0 <= j < preexisting_sets@.len() && (#[trigger] preexisting_sets@[j]).members@.subset_of(
                target@,
            ) ==> (exists|k: int| 0 <= k < r.0@.len() && r.0@[k] == j),
{
    let ghost cands = preexisting_sets@;
    let ghost univ = target.ordered();
    let mut filt: Vec<usize> = Vec::new();
    let mut bfs: Vec<BitBuf> = Vec::new();
    let m = preexisting_sets.len();
    let mut ci: usize = 0;
    while ci < m
        invariant
            m == cands.len(),
            cands == preexisting_sets@,
            target.wf(),
            sets_wf(cands),
            univ == target.ordered(),
            0 <= ci <= m,
            filt@.len() == bfs@.len(),
            forall|k: int| 0 <= k < filt@.len() ==> (#[trigger] filt@[k]) < cands.len(),
            forall|k: int|
                0 <= k < filt@.len() ==> cands[#[trigger] filt@[k] as int].members@.subset_of(
                    target@,
                ),
            forall|k: int| 0 <= k < bfs@.len() ==> bits_of(#[trigger] bfs@[k]).len() == univ.len(),
            forall|k: int, i: int|
                0 <= k < bfs@.len() && 0 <= i < univ.len() ==> #[trigger] bits_of(bfs@[k])[i]
                    == cands[filt@[k] as int].members@.contains(univ[i]),
            forall|j: int|
                0 <= j < ci && (#[trigger] cands[j]).members@.subset_of(target@) ==> (exists|
                    k: int,
                |
                    0 <= k < filt@.len() && filt@[k] == j),
        decreases m - ci,
    {
        let ghost pre_filt_all = filt@;
        let cand = &preexisting_sets[ci];
        proof {
            assert(cands[ci as int].members.wf());
        }
        if cand.members.is_subset(target) {
            let bf = build_bitfield(target, &cand.members);
            let ghost bfb = bits_of(bf);
            let ghost pre_filt = filt@;
            let ghost pre_bfs = bfs@;
            filt.push(ci);
            bfs.push(bf);
            proof {
                assert forall|k: int, i: int|
                    0 <= k < bfs@.len() && 0 <= i < univ.len() implies #[trigger] bits_of(
                    bfs@[k],
                )[i] == cands[filt@[k] as int].members@.contains(univ[i]) by {
                    if k < pre_bfs.len() {
                        assert(bfs@[k] == pre_bfs[k]);
                        assert(filt@[k] == pre_filt[k]);
                    } else {
                        assert(bfs@[k] == bf);
                        assert(filt@[k] == ci);
                    }
                }
                assert forall|j: int|
                    0 <= j < ci + 1 && (#[trigger] cands[j]).members@.subset_of(target@) implies (
                exists|k: int| 0 <= k < filt@.len() && filt@[k] == j) by {
                    if j < ci {
                        let k0 = choose|k0: int|
                            0 <= k0 < pre_filt_all.len() && pre_filt_all[k0] == j;
                        assert(filt@[k0] == j);
                    } else {
                        assert(filt@[filt@.len() - 1] == ci);
                    }
                }
            }
        }
        ci = ci + 1;
    }
    (filt, bfs)
}

/// Map the still-set bits of the target's working vector back to identities.
fn collect_outliers(target: &IdSet, tgt: &BitBuf, Ghost(rem): Ghost<Set<u64>>) -> (r: IdSet)
    requires
        target.wf(),
        rem.subset_of(target@),
        bits_of(*tgt).len() == target.ordered().len(),
        forall|i: int|
            0 <= i < target.ordered().len() ==> bits_of(*tgt)[i] == rem.contains(
                #[trigger] target.ordered()[i],
            ),
    ensures
        r.wf(),
        r@ == rem,
{
    let ghost univ = target.ordered();
    let n_bits = target.len();
    let mut outv: Vec<u64> = Vec::new();
    let mut oi: usize = 0;
    while oi < n_bits
        invariant
            target.wf(),
            univ == target.ordered(),
            n_bits == univ.len(),
            bits_of(*tgt).len() == univ.len(),
            forall|i: int|
                0 <= i < univ.len() ==> bits_of(*tgt)[i] == rem.contains(#[trigger] univ[i]),
            0 <= oi <= n_bits,
            sorted_strict(outv@),
            forall|v: u64| #[trigger] outv@.contains(v) ==> rem.contains(v),
            forall|j: int| 0 <= j < oi && bits_of(*tgt)[j] ==> outv@.contains(#[trigger] univ[j]),
            forall|j: int| oi <= j < univ.len() ==> all_below(outv@, #[trigger] univ[j]),
        decreases n_bits - oi,
    {
        let ghost pre_out = outv@;
        if bv_get(tgt, oi) {
            let v = target.elem_at(oi);
            outv.push(v);
            proof {
                target.lemma_ordered();
                assert forall|w: u64| #[trigger] outv@.contains(w) implies rem.contains(w) by {
                    let idx = choose|idx: int| 0 <= idx < outv@.len() && outv@[idx] == w;
                    if idx < pre_out.len() {
                        assert(pre_out[idx] == w);
                        assert(pre_out.contains(w));
                    } else {
                        assert(w == v);
                    }
                }
                assert forall|j: int| 0 <= j < oi + 1 && bits_of(*tgt)[j] implies outv@.contains(
                    #[trigger] univ[j],
                ) by {
                    if j < oi {
                        let idx = choose|idx: int|
                            0 <= idx < pre_out.len() && pre_out[idx] == univ[j];
                        assert(outv@[idx] == univ[j]);
                    } else {
                        assert(outv@[pre_out.len() as int] == univ[j]);
                    }
                }
            }
        }
        oi = oi + 1;
    }
    let outliers = IdSet::from_ordered(outv);
    proof {
        target.lemma_ordered();
        assert forall|v: u64| rem.contains(v) implies outv@.to_set().contains(v) by {
            assert(target@.contains(v));
            assert(target.ordered().to_set().contains(v));
            let j = choose|j: int| 0 <= j < univ.len() && univ[j] == v;
            assert(bits_of(*tgt)[j]);
            assert(outv@.contains(univ[j]));
        }
        assert(outliers@ =~= rem);
    }
    outliers
}

/// Represent a set as the union of named pre-existing sets plus outliers.
///
/// Candidates that are not subsets of the target are disqualified. From the
/// rest the algorithm repeatedly takes a candidate with the most identities
/// not yet covered (ties prefer a candidate disjoint from the other tied
/// ones, then the one with the most identities unique to itself), until no
/// candidate would add anything; the uncovered remainder of the target is
/// returned as outliers.
///
/// The contract states the exact-cover guarantee: the union of the members of
/// the returned names together with the outliers is exactly the target, every
/// returned name is a distinct candidate whose members lie inside the target,
/// no returned candidate's members are contained in another returned
/// candidate's members, and every candidate that survives disqualification is
/// covered by the chosen union — nothing a candidate could cover is left to
/// the outliers.
#[verifier::rlimit(100)]
pub fn unionize_set(target: &IdSet, preexisting_sets: &Vec<NamedSet>) -> (r: UnionizeSetResult)
    requires
        target.wf(),
        sets_wf(preexisting_sets@),
        distinct_names(preexisting_sets@),
    ensures
        r.outliers.wf(),
        forall|i: int|
            0 <= i < r.sets@.len() ==> names_subset_candidate(
                preexisting_sets@,
                target@,
                (#[trigger] r.sets@[i])@,
            ),
        forall|p: int, q: int|
            0 <= p < q < r.sets@.len() ==> (#[trigger] r.sets@[p])@ != (#[trigger] r.sets@[q])@,
        r.outliers@ == target@.difference(sel_union(preexisting_sets@, r.sets@)),
        sel_union(preexisting_sets@, r.sets@).union(r.outliers@) == target@,
        forall|j: int|
            0 <= j < preexisting_sets@.len() && (#[trigger] preexisting_sets@[j]).members@.subset_of(
                target@,
            ) ==> preexisting_sets@[j].members@.subset_of(
                sel_union(preexisting_sets@, r.sets@),
            ),
        forall|j1: int, j2: int|
            0 <= j1 < preexisting_sets@.len() && 0 <= j2 < preexisting_sets@.len() && j1 != j2
                && chosen_has(r.sets@, (#[trigger] preexisting_sets@[j1]).name@) && chosen_has(
                r.sets@,
                (#[trigger] preexisting_sets@[j2]).name@,
            ) ==> !preexisting_sets@[j1].members@.subset_of(preexisting_sets@[j2].members@),
        forall|j: int|
            0 <= j < preexisting_sets@.len() && chosen_has(
                r.sets@,
                (#[trigger] preexisting_sets@[j]).name@,
            ) ==> has_member(preexisting_sets@[j]),
{
    let ghost cands = preexisting_sets@;
    proof {
        target.lemma_ordered();
    }
    let ghost univ = target.ordered();
    let n_bits = target.len();

    let (filt, mut bfs) = filter_candidates(target, preexisting_sets);

    // The target's own working bit vector starts with every bit set.
    let mut tgt = build_bitfield(target, target);
    let mut chosen: Vec<String> = Vec::new();
    let ghost mut js: Seq<int> = Seq::empty();
    proof {
        assert(sel_union(cands, chosen@) =~= Set::<u64>::empty());
        assert forall|i: int| 0 <= i < univ.len() implies bits_of(tgt)[i] == target@.difference(
            sel_union(cands, chosen@),
        ).contains(#[trigger] univ[i]) by {
            assert(target@.contains(univ[i]));
        }
        assert forall|k: int, i: int|
            0 <= k < bfs@.len() && 0 <= i < univ.len() implies #[trigger] bits_of(bfs@[k])[i] == (
        cands[filt@[k] as int].members@.contains(univ[i]) && bits_of(tgt)[i]) by {
            assert(target@.contains(univ[i]));
        }
    }

    let mut go = any_nonempty(&bfs);
    while go
        invariant
            cands == preexisting_sets@,
            target.wf(),
            sets_wf(cands),
            distinct_names(cands),
            univ == target.ordered(),
            n_bits == univ.len(),
            filt@.len() == bfs@.len(),
            forall|k: int| 0 <= k < filt@.len() ==> (#[trigger] filt@[k]) < cands.len(),
            forall|k: int|
                0 <= k < filt@.len() ==> cands[#[trigger] filt@[k] as int].members@.subset_of(
                    target@,
                ),
            forall|k: int| 0 <= k < bfs@.len() ==> bits_of(#[trigger] bfs@[k]).len() == univ.len(),
            bits_of(tgt).len() == univ.len(),
            forall|k: int, i: int|
                0 <= k < bfs@.len() && 0 <= i < univ.len() ==> #[trigger] bits_of(bfs@[k])[i] == (
                cands[filt@[k] as int].members@.contains(univ[i]) && bits_of(tgt)[i]),
            forall|i: int|
                0 <= i < univ.len() ==> bits_of(tgt)[i] == target@.difference(
                    sel_union(cands, chosen@),
                ).contains(#[trigger] univ[i]),
            chosen@.len() == js.len(),
            forall|p: int| 0 <= p < js.len() ==> 0 <= #[trigger] js[p] < cands.len(),
            forall|p: int| 0 <= p < js.len() ==> cands[#[trigger] js[p]].name@ == chosen@[p]@,
            forall|p: int|
                0 <= p < js.len() ==> cands[#[trigger] js[p]].members@.subset_of(target@),
            forall|p: int, q: int| 0 <= p < q < js.len() ==> js[p] != js[q],
            forall|p: int| 0 <= p < js.len() ==> has_member(cands[#[trigger] js[p]]),
            forall|p: int, q: int|
                0 <= p < js.len() && 0 <= q < js.len() && p != q ==> !cands[#[trigger] js[p]].members@.subset_of(
                    cands[#[trigger] js[q]].members@,
                ),
            forall|k: int, p: int|
                0 <= k < bfs@.len() && 0 <= p < js.len() && has_set_bit(#[trigger] bfs@[k])
                    ==> !cands[#[trigger] js[p]].members@.subset_of(
                    cands[filt@[k] as int].members@,
                ),
            go == (exists|k: int| 0 <= k < bfs@.len() && has_set_bit(#[trigger] bfs@[k])),
        decreases count_trues(bits_of(tgt)),
    {
        let ghost pre_tgt = bits_of(tgt);
        let ghost pre_chosen = chosen@;
        let ghost pre_js = js;
        let ghost pre_bfs = bfs@;

        let sel = select_candidate(&bfs, n_bits);
        let ghost jn = filt@[sel as int] as int;
        let ghost selbits = bits_of(bfs@[sel as int]);
        let ghost i0 = choose|i: int| 0 <= i < selbits.len() && selbits[i];
        proof {
            lemma_sel_union_char(cands, pre_chosen, pre_js);
            assert(has_set_bit(bfs@[sel as int]));
            assert(selbits[i0]);
            assert(cands[jn].members@.contains(univ[i0]));
            assert(pre_tgt[i0]);
            assert(target@.difference(sel_union(cands, pre_chosen)).contains(univ[i0]));
        }

        let fi = filt[sel];
        let nm = preexisting_sets[fi].name.clone();
        chosen.push(nm);
        proof {
            js = js.push(jn);
            assert(chosen@[js.len() - 1]@ == cands[jn].name@);
            lemma_sel_union_char(cands, chosen@, js);
            lemma_union_over_push(cands, pre_js, jn);
            assert(target@.difference(sel_union(cands, chosen@)) =~= target@.difference(
                sel_union(cands, pre_chosen),
            ).difference(cands[jn].members@));
        }

        let nsel = bv_not(bv_clone(&bfs[sel]));
        bv_and_assign(&mut tgt, &nsel);
        proof {
            assert(bits_of(tgt).len() == univ.len());
            assert forall|i: int| 0 <= i < univ.len() implies bits_of(tgt)[i] == (pre_tgt[i]
                && !selbits[i]) by {}
        }
        let nb = bfs.len();
        let mut new_bfs: Vec<BitBuf> = Vec::new();
        let mut k2: usize = 0;
        while k2 < nb
            invariant
                nb == pre_bfs.len(),
                bfs@ == pre_bfs,
                0 <= k2 <= nb,
                forall|k: int|
                    0 <= k < pre_bfs.len() ==> bits_of(#[trigger] pre_bfs[k]).len()
                        == selbits.len(),
                bits_of(nsel).len() == selbits.len(),
                forall|i: int| 0 <= i < selbits.len() ==> bits_of(nsel)[i] == !selbits[i],
                new_bfs@.len() == k2,
                forall|k: int|
                    0 <= k < k2 ==> bits_of(#[trigger] new_bfs@[k]).len() == selbits.len(),
                forall|k: int, i: int|
                    0 <= k < k2 && 0 <= i < selbits.len() ==> #[trigger] bits_of(new_bfs@[k])[i]
                        == (bits_of(pre_bfs[k])[i] && !selbits[i]),
            decreases nb - k2,
        {
            let mut c = bv_clone(&bfs[k2]);
            bv_and_assign(&mut c, &nsel);
            let ghost cb = bits_of(c);
            let ghost pre_new = new_bfs@;
            new_bfs.push(c);
            proof {
                assert forall|k: int, i: int|
                    0 <= k < k2 + 1 && 0 <= i < selbits.len() implies #[trigger] bits_of(
                    new_bfs@[k],
                )[i] == (bits_of(pre_bfs[k])[i] && !selbits[i]) by {
                    if k < k2 {
                        assert(new_bfs@[k] == pre_new[k]);
                    } else {
                        assert(bits_of(new_bfs@[k]) == cb);
                    }
                }
            }
            k2 = k2 + 1;
        }
        bfs = new_bfs;

        proof {
            let rem_pre = target@.difference(sel_union(cands, pre_chosen));
            let rem_post = target@.difference(sel_union(cands, chosen@));

            // the new candidate is not an earlier choice, nor in a subset
            // relation with one
            assert forall|p: int| 0 <= p < pre_js.len() implies pre_js[p] != jn
                && !cands[#[trigger] pre_js[p]].members@.subset_of(cands[jn].members@)
                && !cands[jn].members@.subset_of(cands[pre_js[p]].members@) by {
                if cands[pre_js[p]].members@.contains(univ[i0]) {
                    assert(union_over(cands, pre_js).contains(univ[i0]));
                    assert(!rem_pre.contains(univ[i0]));
                    assert(false);
                }
                if pre_js[p] == jn {
                    assert(cands[pre_js[p]].members@.contains(univ[i0]));
                    assert(false);
                }
                assert(has_set_bit(pre_bfs[sel as int]));
            }

            // target bit vector still mirrors the remainder
            assert forall|i: int| 0 <= i < univ.len() implies bits_of(tgt)[i] == rem_post.contains(
                #[trigger] univ[i],
            ) by {
                assert(bits_of(tgt)[i] == (pre_tgt[i] && !selbits[i]));
                assert(selbits[i] == (cands[jn].members@.contains(univ[i]) && pre_tgt[i]));
                assert(pre_tgt[i] == rem_pre.contains(univ[i]));
            }

            // candidate bit vectors still mirror members-and-remainder
            assert forall|k: int, i: int|
                0 <= k < bfs@.len() && 0 <= i < univ.len() implies #[trigger] bits_of(bfs@[k])[i]
                == (cands[filt@[k] as int].members@.contains(univ[i]) && bits_of(tgt)[i]) by {
                assert(bits_of(bfs@[k])[i] == (bits_of(pre_bfs[k])[i] && !selbits[i]));
                assert(bits_of(pre_bfs[k])[i] == (cands[filt@[k] as int].members@.contains(univ[i])
                    && pre_tgt[i]));
                assert(bits_of(tgt)[i] == (pre_tgt[i] && !selbits[i]));
            }

            // survivors with a set bit are still no supersets of any choice
            assert forall|k: int, p: int|
                0 <= k < bfs@.len() && 0 <= p < js.len() && has_set_bit(#[trigger] bfs@[k])
                implies !cands[#[trigger] js[p]].members@.subset_of(
                cands[filt@[k] as int].members@,
            ) by {
                let iw = choose|i: int| 0 <= i < bits_of(bfs@[k]).len() && bits_of(bfs@[k])[i];
                assert(bits_of(bfs@[k])[iw] == (bits_of(pre_bfs[k])[iw] && !selbits[iw]));
                assert(bits_of(pre_bfs[k])[iw]);
                assert(has_set_bit(pre_bfs[k]));
                if p < pre_js.len() {
                    assert(js[p] == pre_js[p]);
                } else {
                    // p names the new choice: a survivor containing all of it
                    // would have been bit-for-bit equal to the selection and
                    // hence cleared entirely
                    assert(js[p] == jn);
                    if cands[jn].members@.subset_of(cands[filt@[k] as int].members@) {
                        assert forall|i: int| 0 <= i < selbits.len() implies (selbits[i]
                            ==> bits_of(pre_bfs[k])[i]) by {
                            assert(selbits[i] == (cands[jn].members@.contains(univ[i])
                                && pre_tgt[i]));
                            assert(bits_of(pre_bfs[k])[i] == (
                            cands[filt@[k] as int].members@.contains(univ[i]) && pre_tgt[i]));
                        }
                        assert(count_trues(selbits) >= count_trues(bits_of(pre_bfs[k])));
                        lemma_count_eq_pointwise(selbits, bits_of(pre_bfs[k]));
                        assert(!bits_of(bfs@[k])[iw]);
                        assert(false);
                    }
                }
            }

            // each choice, the new one included, contributes an identity
            assert forall|p: int| 0 <= p < js.len() implies has_member(
                cands[#[trigger] js[p]],
            ) by {
                if p < pre_js.len() {
                    assert(js[p] == pre_js[p]);
                } else {
                    assert(js[p] == jn);
                    assert(cands[jn].members@.contains(univ[i0]));
                }
            }
            // the cleared bits make the target population strictly smaller
            assert(!bits_of(tgt)[i0] && pre_tgt[i0]);
            lemma_count_lt(bits_of(tgt), pre_tgt, i0);
        }
        go = any_nonempty(&bfs);
    }

    proof {
        lemma_sel_union_char(cands, chosen@, js);
    }
    let ghost rem = target@.difference(sel_union(cands, chosen@));
    let outliers = collect_outliers(target, &tgt, Ghost(rem));
    let result = UnionizeSetResult { sets: chosen, outliers };

    proof {
        let sets = result.sets@;
        // every chosen name is a candidate's name
        assert forall|i: int| 0 <= i < sets.len() implies names_subset_candidate(
            preexisting_sets@,
            target@,
            (#[trigger] sets[i])@,
        ) by {
            let j = js[i];
            assert(0 <= j < preexisting_sets@.len() && sets[i]@ == preexisting_sets@[j].name@
                && preexisting_sets@[j].members@.subset_of(target@));
        }
        // chosen names are pairwise distinct
        assert forall|p: int, q: int| 0 <= p < q < sets.len() implies (#[trigger] sets[p])@
            != (#[trigger] sets[q])@ by {
            assert(cands[js[p]].name@ == sets[p]@);
            assert(cands[js[q]].name@ == sets[q]@);
            assert(js[p] != js[q]);
        }
        // exact cover
        assert(sel_union(cands, sets).union(result.outliers@) =~= target@) by {
            assert(sel_union(cands, sets) == union_over(cands, js));
            assert forall|v: u64| union_over(cands, js).contains(v) implies target@.contains(
                v,
            ) by {
                let p = choose|p: int|
                    0 <= p < js.len() && cands[#[trigger] js[p]].members@.contains(v);
                assert(cands[js[p]].members@.subset_of(target@));
            }
        }
        // every surviving candidate is covered by the chosen union: at loop
        // exit its bit vector holds no set bit, so each of its members'
        // target bits is cleared, which says the member left the remainder
        assert forall|j: int|
            0 <= j < cands.len() && (#[trigger] cands[j]).members@.subset_of(target@)
            implies cands[j].members@.subset_of(sel_union(cands, sets)) by {
            let k = choose|k: int| 0 <= k < filt@.len() && filt@[k] == j;
            assert forall|v: u64| cands[j].members@.contains(v) implies sel_union(
                cands,
                sets,
            ).contains(v) by {
                assert(target@.contains(v));
                target.lemma_ordered();
                assert(target.ordered().to_set().contains(v));
                let iv = choose|iv: int| 0 <= iv < univ.len() && univ[iv] == v;
                assert(!has_set_bit(bfs@[k]));
                assert(bits_of(bfs@[k]).len() == univ.len());
                assert(!bits_of(bfs@[k])[iv]);
                assert(bits_of(bfs@[k])[iv] == (cands[filt@[k] as int].members@.contains(univ[iv])
                    && bits_of(tgt)[iv]));
                assert(cands[j].members@.contains(univ[iv]));
                assert(!bits_of(tgt)[iv]);
                assert(bits_of(tgt)[iv] == target@.difference(sel_union(cands, chosen@)).contains(
                    univ[iv],
                ));
                assert(sel_union(cands, chosen@).contains(v));
                assert(sets == chosen@);
            }
        }
        // every chosen candidate contributes at least one identity
        assert forall|j: int|
            0 <= j < cands.len() && chosen_has(sets, (#[trigger] cands[j]).name@) implies has_member(
            cands[j],
        ) by {
            let p = choose|p: int| 0 <= p < sets.len() && (#[trigger] sets[p])@ == cands[j].name@;
            assert(cands[js[p]].name@ == cands[j].name@);
            if js[p] != j {
                assert(false);
            }
        }
        // no chosen candidate inside another chosen candidate
        assert forall|j1: int, j2: int|
            0 <= j1 < cands.len() && 0 <= j2 < cands.len() && j1 != j2 && chosen_has(
                sets,
                (#[trigger] cands[j1]).name@,
            ) && chosen_has(sets, (#[trigger] cands[j2]).name@)
            implies !cands[j1].members@.subset_of(cands[j2].members@) by {
            let p = choose|p: int| 0 <= p < sets.len() && (#[trigger] sets[p])@ == cands[j1].name@;
            let q = choose|q: int| 0 <= q < sets.len() && (#[trigger] sets[q])@ == cands[j2].name@;
            assert(cands[js[p]].name@ == cands[j1].name@);
            if js[p] != j1 {
                assert(false);
            }
            assert(cands[js[q]].name@ == cands[j2].name@);
            if js[q] != j2 {
                assert(false);
            }
            assert(p != q);
        }
    }

    result
}

} // verus!
