//! A generalized fold over set-operation trees.
//!
//! [`ReducerOp`] mirrors the shape of a query: unions, intersections and
//! differences over leaves of an arbitrary type. [`run_reducers`] evaluates
//! such a tree, resolving each leaf through a caller-supplied
//! [`LeafResolver`], left to right, and combining with exact set algebra;
//! any resolver error aborts the whole run.

use vstd::prelude::*;

use crate::idset::IdSet;

verus! {

/// A tree of set operations over leaves of type `User`.
pub enum ReducerOp<User> {
    /// The difference of two subtrees.
    Difference(Box<ReducerOp<User>>, Box<ReducerOp<User>>),
    /// The intersection of two subtrees.
    Intersection(Box<ReducerOp<User>>, Box<ReducerOp<User>>),
    /// The union of two subtrees.
    Union(Box<ReducerOp<User>>, Box<ReducerOp<User>>),
    /// One leaf, resolved by the caller's function.
    User(User),
}

/// The exec result `r` returns the abstract outcome `m`.
pub open spec fn reduces_to<E>(r: Result<IdSet, E>, m: Result<Set<u64>, E>) -> bool {
    match r {
        Ok(s) => m is Ok && s.wf() && s@ == m->Ok_0,
        Err(e) => m is Err && e == m->Err_0,
    }
}

/// Resolves one leaf to a set of identities.
///
/// As with the interpreter's resolver, answers must be a function of the
/// resolver's state alone and must not change as leaves are resolved.
pub trait LeafResolver<User, E>: Sized {
    /// The answers this resolver currently gives.
    spec fn model(&self) -> Map<User, Result<Set<u64>, E>>;

    /// Resolve one leaf.
    fn resolve(&mut self, user: User) -> (r: Result<IdSet, E>)
        ensures
            final(self).model() == old(self).model(),
            reduces_to(r, old(self).model()[user]),
    ;
}

/// What evaluating `node` against the answers `m` yields.
pub open spec fn reduce_spec<User, E>(
    node: ReducerOp<User>,
    m: Map<User, Result<Set<u64>, E>>,
) -> Result<Set<u64>, E>
    decreases node,
{
    match node {
        ReducerOp::Difference(l, r) => match reduce_spec(*l, m) {
            Ok(ls) => match reduce_spec(*r, m) {
                Ok(rs) => Ok(ls.difference(rs)),
                Err(e) => Err(e),
            },
            Err(e) => Err(e),
        },
        ReducerOp::Intersection(l, r) => match reduce_spec(*l, m) {
            Ok(ls) => match reduce_spec(*r, m) {
                Ok(rs) => Ok(ls.intersect(rs)),
                Err(e) => Err(e),
            },
            Err(e) => Err(e),
        },
        ReducerOp::Union(l, r) => match reduce_spec(*l, m) {
            Ok(ls) => match reduce_spec(*r, m) {
                Ok(rs) => Ok(ls.union(rs)),
                Err(e) => Err(e),
            },
            Err(e) => Err(e),
        },
        ReducerOp::User(u) => m[u],
    }
}

/// Evaluate a tree of set operations, resolving each leaf with `f`.
pub fn run_reducers<User, E, F: LeafResolver<User, E>>(node: ReducerOp<User>, f: &mut F) -> (r:
    Result<IdSet, E>)
    ensures
        final(f).model() == old(f).model(),
        reduces_to(r, reduce_spec(node, old(f).model())),
    decreases node,
{
    match node {
        ReducerOp::Difference(l, rr) => {
            let ls = run_reducers(*l, f)?;
            let rs = run_reducers(*rr, f)?;
            Ok(ls.difference(&rs))
        },
        ReducerOp::Intersection(l, rr) => {
            let ls = run_reducers(*l, f)?;
            let rs = run_reducers(*rr, f)?;
            Ok(ls.intersection(&rs))
        },
        ReducerOp::Union(l, rr) => {
            let ls = run_reducers(*l, f)?;
            let rs = run_reducers(*rr, f)?;
            Ok(ls.union(&rs))
        },
        ReducerOp::User(u) => f.resolve(u),
    }
}

} // verus!
