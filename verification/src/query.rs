//! Processing a batch of query chunks into one identity set.
//!
//! A message may hold several embedded queries. They are parsed one by one,
//! folded into a single tree by union (left-associatively, in order of
//! appearance), and evaluated through the caller's resolver.

use vstd::prelude::*;

use crate::drql::ast::Expr;
use crate::drql::ast::ExprV;
use crate::drql::ast::expr_model;
use crate::drql::interpreter::InterpreterResolver;
use crate::drql::interpreter::eval;
use crate::drql::interpreter::interpret;
use crate::drql::parser::ParseError;
use crate::drql::parser::parse_drql;
use crate::drql::parser::parse_error_model;
use crate::drql::parser::parse_spec;
use crate::idset::IdSet;

verus! {

/// Why a batch of query chunks produced no identity set.
#[derive(Debug)]
pub enum EvaluateError<E> {
    /// One chunk failed to parse; earlier chunks parsed.
    Parse {
        /// The index of the failing chunk.
        chunk: usize,
        /// Its parse error.
        error: ParseError,
    },
    /// There was no query chunk at all.
    NoQuery,
    /// The resolver failed while evaluating.
    Resolve(E),
}

/// The queries of all chunks folded into one tree, leftmost first.
pub open spec fn fold_union(asts: Seq<ExprV>) -> ExprV
    decreases asts.len(),
{
    if asts.len() <= 1 {
        asts[0]
    } else {
        ExprV::Union(Box::new(fold_union(asts.drop_last())), Box::new(asts.last()))
    }
}

/// The parsed tree of each chunk, assuming all chunks parse.
pub open spec fn parsed_chunks(views: Seq<Seq<char>>) -> Seq<ExprV> {
    Seq::new(views.len(), |k: int| parse_spec(views[k])->Ok_0)
}

/// Process DRQL query chunks and return the resulting identity set.
///
/// Each chunk is parsed (the first parse error, with its chunk index, is the
/// result), the trees are folded left-associatively with union, and the one
/// tree is evaluated against the resolver; a resolver error aborts the whole
/// evaluation. An empty batch yields [`EvaluateError::NoQuery`].
pub fn parse_and_evaluate_query<E, R: InterpreterResolver<E>>(
    chunks: &Vec<String>,
    resolver: &mut R,
) -> (r: Result<IdSet, EvaluateError<E>>)
    ensures
        final(resolver).model() == old(resolver).model(),
        match r {
            Ok(s) => {
                &&& chunks@.len() > 0
                &&& forall|m: int|
                    0 <= m < chunks@.len() ==> parse_spec(#[trigger] chunks.deep_view()[m]) is Ok
                &&& s.wf()
                &&& eval(fold_union(parsed_chunks(chunks.deep_view())), old(resolver).model())
                    == Ok::<Set<u64>, E>(s@)
            },
            Err(EvaluateError::Parse { chunk, error }) => {
                &&& chunk < chunks@.len()
                &&& parse_spec(chunks.deep_view()[chunk as int]) is Err
                &&& parse_error_model(error) == parse_spec(
                    chunks.deep_view()[chunk as int],
                )->Err_0
                &&& forall|m: int|
                    0 <= m < chunk ==> parse_spec(#[trigger] chunks.deep_view()[m]) is Ok
            },
            Err(EvaluateError::NoQuery) => chunks@.len() == 0,
            Err(EvaluateError::Resolve(e)) => {
                &&& chunks@.len() > 0
                &&& forall|m: int|
                    0 <= m < chunks@.len() ==> parse_spec(#[trigger] chunks.deep_view()[m]) is Ok
                &&& eval(fold_union(parsed_chunks(chunks.deep_view())), old(resolver).model())
                    == Err::<Set<u64>, E>(e)
            },
        },
{
    let ghost views = chunks.deep_view();
    let n = chunks.len();
    let mut acc: Option<Expr> = None;
    let mut i: usize = 0;
    while i < n
        invariant
            views == chunks.deep_view(),
            n == chunks@.len(),
            0 <= i <= n,
            forall|m: int| 0 <= m < i ==> parse_spec(#[trigger] views[m]) is Ok,
            match acc {
                None => i == 0,
                Some(a) => i > 0 && expr_model(a) == fold_union(
                    parsed_chunks(views).take(i as int),
                ),
            },
        decreases n - i,
    {
        match parse_drql(chunks[i].as_str()) {
            Ok(ast) => {
                proof {
                    assert(parse_spec(views[i as int]) == Ok::<
                        ExprV,
                        crate::drql::parser::ParseErrV,
                    >(expr_model(ast)));
                    assert(parsed_chunks(views).take(i as int + 1).drop_last() =~= parsed_chunks(
                        views,
                    ).take(i as int));
                    assert(parsed_chunks(views).take(i as int + 1).last() == expr_model(ast));
                }
                match acc {
                    None => {
                        acc = Some(ast);
                    },
                    Some(prev) => {
                        acc = Some(Expr::Union(Box::new(prev), Box::new(ast)));
                    },
                }
            },
            Err(error) => {
                proof {
                    assert(parse_spec(views[i as int]) is Err);
                    assert(parse_error_model(error) == parse_spec(views[i as int])->Err_0);
                }
                return Err(EvaluateError::Parse { chunk: i, error });
            },
        }
        i = i + 1;
    }
    match acc {
        None => Err(EvaluateError::NoQuery),
        Some(ast) => {
            proof {
                assert(parsed_chunks(views).take(n as int) =~= parsed_chunks(views));
            }
            match interpret(ast, resolver) {
                Ok(s) => Ok(s),
                Err(e) => Err(EvaluateError::Resolve(e)),
            }
        },
    }
}

} // verus!
