//! Utilities and functions for interpreting DRQL queries.
//!
//! The interpreter walks an expression tree depth first, left before right,
//! resolving each leaf through the provided [`InterpreterResolver`] and
//! folding the results with the matching set operation. Any resolver error
//! aborts the whole evaluation; no partial set is ever returned.

use vstd::prelude::*;

use crate::drql::ast::Expr;
use crate::drql::ast::ExprV;
use crate::drql::ast::expr_model;
use crate::idset::IdSet;

verus! {

/// What a resolver answers: for each way a leaf can be written, either the
/// set of identities it stands for, or an error.
pub struct ResolverModel<E> {
    /// Answers for name leaves.
    pub string_literal: Map<Seq<char>, Result<Set<u64>, E>>,
    /// Answers for undetermined ID leaves.
    pub unknown_id: Map<Seq<char>, Result<Set<u64>, E>>,
    /// Answers for user ID leaves.
    pub user_id: Map<u64, Result<Set<u64>, E>>,
    /// Answers for role ID leaves.
    pub role_id: Map<u64, Result<Set<u64>, E>>,
}

/// The exec result `r` returns the abstract outcome `m`: the same error, or
/// a well-formed set with the same elements.
pub open spec fn resolves_to<E>(r: Result<IdSet, E>, m: Result<Set<u64>, E>) -> bool {
    match r {
        Ok(s) => m is Ok && s.wf() && s@ == m->Ok_0,
        Err(e) => m is Err && e == m->Err_0,
    }
}

/// Describes a set of functions used to resolve values in [`interpret`].
///
/// An implementation's answers must be a function of its state alone, and
/// resolving must not change later answers — an implementation may cache,
/// but not answer differently over time.
pub trait InterpreterResolver<E>: Sized {
    /// The answers this resolver currently gives.
    spec fn model(&self) -> ResolverModel<E>;

    /// Resolve a role name to the set of its members.
    fn resolve_string_literal(&mut self, literal: String) -> (r: Result<IdSet, E>)
        ensures
            final(self).model() == old(self).model(),
            resolves_to(r, old(self).model().string_literal[literal@]),
    ;

    /// Resolve an undetermined ID to the set of its members.
    fn resolve_unknown_id(&mut self, id: String) -> (r: Result<IdSet, E>)
        ensures
            final(self).model() == old(self).model(),
            resolves_to(r, old(self).model().unknown_id[id@]),
    ;

    /// Resolve a user ID to the set of just that user.
    fn resolve_user_id(&mut self, id: u64) -> (r: Result<IdSet, E>)
        ensures
            final(self).model() == old(self).model(),
            resolves_to(r, old(self).model().user_id[id]),
    ;

    /// Resolve a role ID to the set of its members.
    fn resolve_role_id(&mut self, id: u64) -> (r: Result<IdSet, E>)
        ensures
            final(self).model() == old(self).model(),
            resolves_to(r, old(self).model().role_id[id]),
    ;
}

/// What evaluating `node` against the resolver answers `m` yields: native
/// set algebra on the leaves' sets, with the leftmost error winning.
pub open spec fn eval<E>(node: ExprV, m: ResolverModel<E>) -> Result<Set<u64>, E>
    decreases node,
{
    match node {
        ExprV::Union(l, r) => match eval(*l, m) {
            Ok(ls) => match eval(*r, m) {
                Ok(rs) => Ok(ls.union(rs)),
                Err(e) => Err(e),
            },
            Err(e) => Err(e),
        },
        ExprV::Intersection(l, r) => match eval(*l, m) {
            Ok(ls) => match eval(*r, m) {
                Ok(rs) => Ok(ls.intersect(rs)),
                Err(e) => Err(e),
            },
            Err(e) => Err(e),
        },
        ExprV::Difference(l, r) => match eval(*l, m) {
            Ok(ls) => match eval(*r, m) {
                Ok(rs) => Ok(ls.difference(rs)),
                Err(e) => Err(e),
            },
            Err(e) => Err(e),
        },
        ExprV::StringLiteral(s) => m.string_literal[s],
        ExprV::UnknownID(s) => m.unknown_id[s],
        ExprV::UserID(id) => m.user_id[id],
        ExprV::RoleID(id) => m.role_id[id],
    }
}

/// Some leaf of `node` resolves to an error under `m`.
pub open spec fn has_err_leaf<E>(node: ExprV, m: ResolverModel<E>) -> bool
    decreases node,
{
    match node {
        ExprV::Union(l, r) => has_err_leaf(*l, m) || has_err_leaf(*r, m),
        ExprV::Intersection(l, r) => has_err_leaf(*l, m) || has_err_leaf(*r, m),
        ExprV::Difference(l, r) => has_err_leaf(*l, m) || has_err_leaf(*r, m),
        ExprV::StringLiteral(s) => m.string_literal[s] is Err,
        ExprV::UnknownID(s) => m.unknown_id[s] is Err,
        ExprV::UserID(id) => m.user_id[id] is Err,
        ExprV::RoleID(id) => m.role_id[id] is Err,
    }
}

/// A resolver error at any leaf makes the whole evaluation an error — never
/// a partial set — and an evaluation with no failing leaf succeeds.
pub proof fn lemma_eval_err_iff_err_leaf<E>(node: ExprV, m: ResolverModel<E>)
    ensures
        eval(node, m) is Err <==> has_err_leaf(node, m),
    decreases node,
{
    match node {
        ExprV::Union(l, r) => {
            lemma_eval_err_iff_err_leaf(*l, m);
            lemma_eval_err_iff_err_leaf(*r, m);
        },
        ExprV::Intersection(l, r) => {
            lemma_eval_err_iff_err_leaf(*l, m);
            lemma_eval_err_iff_err_leaf(*r, m);
        },
        ExprV::Difference(l, r) => {
            lemma_eval_err_iff_err_leaf(*l, m);
            lemma_eval_err_iff_err_leaf(*r, m);
        },
        _ => {},
    }
}

/// Interpret a DRQL AST, deferring to the resolver to resolve string
/// literals, unknown IDs, user IDs, and role IDs.
///
/// The result is exactly [`eval`] of the tree against the resolver's
/// answers: the leaves' sets combined with exact union, intersection and
/// left-minus-right difference, or the error of the leftmost failing leaf.
pub fn interpret<E, R: InterpreterResolver<E>>(node: Expr, resolver: &mut R) -> (r: Result<
    IdSet,
    E,
>)
    ensures
        final(resolver).model() == old(resolver).model(),
        resolves_to(r, eval(expr_model(node), old(resolver).model())),
    decreases node,
{
    match node {
        Expr::Union(lhs, rhs) => {
            let ls = interpret(*lhs, resolver)?;
            let rs = interpret(*rhs, resolver)?;
            Ok(ls.union(&rs))
        },
        Expr::Intersection(lhs, rhs) => {
            let ls = interpret(*lhs, resolver)?;
            let rs = interpret(*rhs, resolver)?;
            Ok(ls.intersection(&rs))
        },
        Expr::Difference(lhs, rhs) => {
            let ls = interpret(*lhs, resolver)?;
            let rs = interpret(*rhs, resolver)?;
            Ok(ls.difference(&rs))
        },
        Expr::StringLiteral(contents) => resolver.resolve_string_literal(contents),
        Expr::UnknownID(id) => resolver.resolve_unknown_id(id),
        Expr::UserID(id) => resolver.resolve_user_id(id),
        Expr::RoleID(id) => resolver.resolve_role_id(id),
    }
}

} // verus!
