//! Trusted interface to the `bitvec` crate.
//!
//! The set optimizer represents working sets as dynamically sized bit
//! vectors, one bit per identity of the target universe. The vectors
//! themselves come from the `bitvec` crate; this module declares the type to
//! the verifier, names its contents ([`bits_of`]), and wraps each operation
//! the optimizer uses with a contract over that name. Everything stated here
//! is matched against `bitvec`'s own documentation and source.

use vstd::prelude::*;

verus! {

/// A dynamically sized bit vector, backed by `bitvec::vec::BitVec`.
///
/// The type is opaque to the verifier (declaring `BitVec` itself is refused,
/// as its generic bounds name traits of the outside crate); its contents are
/// named by [`bits_of`] and every operation is specified over that name.
#[verifier::external_body]
pub struct BitBuf {
    inner: bitvec::vec::BitVec<usize, bitvec::order::Lsb0>,
}

/// The sequence of bits a [`BitBuf`] holds, in index order.
pub uninterp spec fn bits_of(v: BitBuf) -> Seq<bool>;

/// How many bits of `s` are set.
pub open spec fn count_trues(s: Seq<bool>) -> nat
    decreases s.len(),
{
    if s.len() == 0 {
        0
    } else {
        count_trues(s.drop_last()) + if s.last() {
            1nat
        } else {
            0nat
        }
    }
}

/// Relies on `BitVec::repeat`: a vector of `len` copies of the given bit.
#[verifier::external_body]
pub(crate) fn bv_zeros(len: usize) -> (r: BitBuf)
    ensures
        bits_of(r) == Seq::new(len as nat, |i: int| false),
{
    BitBuf { inner: bitvec::vec::BitVec::repeat(false, len) }
}

/// Relies on `BitSlice::set`: writes one bit, in bounds.
#[verifier::external_body]
pub(crate) fn bv_set_true(v: &mut BitBuf, i: usize)
    requires
        i < bits_of(*old(v)).len(),
    ensures
        bits_of(*final(v)) == bits_of(*old(v)).update(i as int, true),
{
    v.inner.set(i, true);
}

/// Relies on `BitSlice`'s `Index<usize>` impl: reads one bit, in bounds.
#[verifier::external_body]
pub(crate) fn bv_get(v: &BitBuf, i: usize) -> (r: bool)
    requires
        i < bits_of(*v).len(),
    ensures
        r == bits_of(*v)[i as int],
{
    v.inner[i]
}

/// Relies on `BitSlice::count_ones`: the number of set bits.
#[verifier::external_body]
pub(crate) fn bv_count_ones(v: &BitBuf) -> (r: usize)
    ensures
        r == count_trues(bits_of(*v)),
{
    v.inner.count_ones()
}

/// Relies on `BitSlice::any`: whether at least one bit is set.
#[verifier::external_body]
pub(crate) fn bv_any(v: &BitBuf) -> (r: bool)
    ensures
        r == (exists|i: int| 0 <= i < bits_of(*v).len() && bits_of(*v)[i]),
{
    v.inner.any()
}

/// Relies on `BitVec`'s `Clone` impl: an equal, independent vector.
#[verifier::external_body]
pub(crate) fn bv_clone(v: &BitBuf) -> (r: BitBuf)
    ensures
        bits_of(r) == bits_of(*v),
{
    BitBuf { inner: v.inner.clone() }
}

/// Relies on `BitVec`'s `Not` impl: flips every live bit.
#[verifier::external_body]
pub(crate) fn bv_not(v: BitBuf) -> (r: BitBuf)
    ensures
        bits_of(r).len() == bits_of(v).len(),
        forall|i: int| 0 <= i < bits_of(v).len() ==> #[trigger] bits_of(r)[i] == !bits_of(v)[i],
{
    BitBuf { inner: !v.inner }
}

/// Relies on `BitVec`'s `BitOrAssign` impl: bitwise or of two equal-length
/// vectors, stored in the left one.
#[verifier::external_body]
pub(crate) fn bv_or_assign(
    a: &mut BitBuf,
    b: &BitBuf,
)
    requires
        bits_of(*old(a)).len() == bits_of(*b).len(),
    ensures
        bits_of(*final(a)).len() == bits_of(*old(a)).len(),
        forall|i: int|
            0 <= i < bits_of(*old(a)).len() ==> #[trigger] bits_of(*final(a))[i] == (bits_of(
                *old(a),
            )[i] || bits_of(*b)[i]),
{
    a.inner |= b.inner.as_bitslice();
}

/// Relies on `BitVec`'s `BitAndAssign` impl: bitwise and of two equal-length
/// vectors, stored in the left one.
#[verifier::external_body]
pub(crate) fn bv_and_assign(
    a: &mut BitBuf,
    b: &BitBuf,
)
    requires
        bits_of(*old(a)).len() == bits_of(*b).len(),
    ensures
        bits_of(*final(a)).len() == bits_of(*old(a)).len(),
        forall|i: int|
            0 <= i < bits_of(*old(a)).len() ==> #[trigger] bits_of(*final(a))[i] == (bits_of(
                *old(a),
            )[i] && bits_of(*b)[i]),
{
    a.inner &= b.inner.as_bitslice();
}

} // verus!
