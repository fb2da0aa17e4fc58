//! The DRQL parser.
//!
//! One query string becomes one expression tree. Precedence, low to high:
//! union (`+`, `|`) and difference (`-`) share one left-associative level;
//! intersection (`&`) binds tighter; atoms are literals and parenthesized
//! expressions. The parser consumes the lexer's tokens left to right and
//! stops at the first error: an empty stream or a missing operand is fatal,
//! as is a token the grammar cannot place, a leftover token after a complete
//! expression, a lexical error, or a mention ID too large to fit. Error
//! positions are character offsets, as in the lexer.

use vstd::prelude::*;

use crate::digits::digits_value;
use crate::digits::parse_u64;
use crate::drql::ast::Expr;
use crate::drql::ast::ExprV;
use crate::drql::ast::expr_model;
use crate::drql::lexer::DrqlLexer;
use crate::drql::lexer::LexicalError;
use crate::drql::lexer::Tok;
use crate::drql::lexer::TokV;
use crate::drql::lexer::lex_from;
use crate::drql::lexer::lex_spec;
use crate::drql::lexer::spanned_model;
use crate::drql::lexer::tok_model;

verus! {

/// An error when parsing a query.
#[derive(Debug, PartialEq)]
pub enum ParseError {
    /// The input ended where the grammar needed more.
    UnrecognizedEof {
        /// The position after the last token, or zero for an empty stream.
        location: usize,
    },
    /// A token the grammar cannot place here.
    UnrecognizedToken {
        /// Start of the token's span.
        start: usize,
        /// The token itself.
        token: Tok,
        /// End of the token's span.
        end: usize,
    },
    /// A token left over after a complete expression.
    ExtraToken {
        /// Start of the token's span.
        start: usize,
        /// The token itself.
        token: Tok,
        /// End of the token's span.
        end: usize,
    },
    /// An error reported by the lexer, or an ID that does not fit.
    User {
        /// The underlying lexical error.
        error: LexicalError,
    },
}

/// The mathematical shape of a parse error.
pub enum ParseErrV {
    /// The input ended where the grammar needed more.
    UnrecognizedEof {
        /// The position after the last token.
        location: int,
    },
    /// A token the grammar cannot place.
    UnrecognizedToken {
        /// Start of the token's span.
        start: int,
        /// The token.
        token: TokV,
        /// End of the token's span.
        end: int,
    },
    /// A token left over after a complete expression.
    ExtraToken {
        /// Start of the token's span.
        start: int,
        /// The token.
        token: TokV,
        /// End of the token's span.
        end: int,
    },
    /// An error reported by the lexer.
    User {
        /// The underlying lexical error.
        error: LexicalError,
    },
}

/// The mathematical shape of `e`.
pub open spec fn parse_error_model(e: ParseError) -> ParseErrV {
    match e {
        ParseError::UnrecognizedEof { location } => ParseErrV::UnrecognizedEof {
            location: location as int,
        },
        ParseError::UnrecognizedToken { start, token, end } => ParseErrV::UnrecognizedToken {
            start: start as int,
            token: tok_model(token),
            end: end as int,
        },
        ParseError::ExtraToken { start, token, end } => ParseErrV::ExtraToken {
            start: start as int,
            token: tok_model(token),
            end: end as int,
        },
        ParseError::User { error } => ParseErrV::User { error },
    }
}

/// The mathematical shape of a parse outcome.
pub open spec fn parse_result_model(r: Result<Expr, ParseError>) -> Result<ExprV, ParseErrV> {
    match r {
        Ok(e) => Ok(expr_model(e)),
        Err(pe) => Err(parse_error_model(pe)),
    }
}

/// Why parsing halted, before it is mapped to a [`ParseErrV`].
pub enum Halt {
    /// More tokens were needed.
    Eof,
    /// This token cannot stand here.
    Unrecognized(int, TokV, int),
    /// A mention ID does not fit in 64 bits.
    Malformed,
}

/// The token at the given span cannot stand here (executable counterpart of
/// [`Halt`]).
enum HaltE {
    /// More tokens were needed.
    Eof,
    /// This token cannot stand here.
    Unrecognized(usize, Tok, usize),
    /// A mention ID does not fit in 64 bits.
    Malformed,
}

/// The mathematical shape of `h`.
spec fn halt_model(h: HaltE) -> Halt {
    match h {
        HaltE::Eof => Halt::Eof,
        HaltE::Unrecognized(a, t, b) => Halt::Unrecognized(a as int, tok_model(t), b as int),
        HaltE::Malformed => Halt::Malformed,
    }
}

/// Parse one atom: a literal, or a parenthesized expression.
pub open spec fn parse_atom(ts: Seq<(int, TokV, int)>, i: int) -> Result<(ExprV, int), Halt>
    decreases ts.len() - i, 1int,
{
    if i < 0 || i >= ts.len() {
        Err(Halt::Eof)
    } else {
        match ts[i].1 {
            TokV::StringLiteral(sq) => Ok((ExprV::StringLiteral(sq), i + 1)),
            TokV::IDLiteral(sq) => Ok((ExprV::UnknownID(sq), i + 1)),
            TokV::UserMention(sq) => if digits_value(sq) <= u64::MAX {
                Ok((ExprV::UserID(digits_value(sq) as u64), i + 1))
            } else {
                Err(Halt::Malformed)
            },
            TokV::RoleMention(sq) => if digits_value(sq) <= u64::MAX {
                Ok((ExprV::RoleID(digits_value(sq) as u64), i + 1))
            } else {
                Err(Halt::Malformed)
            },
            TokV::LeftParen => match parse_union(ts, i + 1) {
                Ok((e, j)) => if j < ts.len() && ts[j].1 is RightParen {
                    Ok((e, j + 1))
                } else if j >= ts.len() {
                    Err(Halt::Eof)
                } else {
                    Err(Halt::Unrecognized(ts[j].0, ts[j].1, ts[j].2))
                },
                Err(h) => Err(h),
            },
            _ => Err(Halt::Unrecognized(ts[i].0, ts[i].1, ts[i].2)),
        }
    }
}

/// Parse the intersections that continue a term whose left part is `acc`.
pub open spec fn parse_term_rest(ts: Seq<(int, TokV, int)>, acc: ExprV, j: int) -> Result<
    (ExprV, int),
    Halt,
>
    decreases ts.len() - j, 0int,
{
    if 0 <= j < ts.len() && ts[j].1 is Ampersand {
        match parse_atom(ts, j + 1) {
            Ok((r, j2)) => {
                let jn0 = if j2 > j + 1 {
                    j2
                } else {
                    j + 2
                };
                let jn = if jn0 > ts.len() {
                    ts.len() as int
                } else {
                    jn0
                };
                parse_term_rest(ts, ExprV::Intersection(Box::new(acc), Box::new(r)), jn)
            },
            Err(h) => Err(h),
        }
    } else {
        Ok((acc, j))
    }
}

/// Parse a term: one or more atoms joined by `&`, left-associative.
pub open spec fn parse_term(ts: Seq<(int, TokV, int)>, i: int) -> Result<(ExprV, int), Halt>
    decreases ts.len() - i, 2int,
{
    if i < 0 || i >= ts.len() {
        Err(Halt::Eof)
    } else {
        match parse_atom(ts, i) {
        Ok((l, j)) => {
            let jn0 = if j > i {
                j
            } else {
                i + 1
            };
            let jn = if jn0 > ts.len() {
                ts.len() as int
            } else {
                jn0
            };
            parse_term_rest(ts, l, jn)
            },
            Err(h) => Err(h),
        }
    }
}

/// Parse the unions and differences that continue an expression whose left
/// part is `acc`.
pub open spec fn parse_union_rest(ts: Seq<(int, TokV, int)>, acc: ExprV, j: int) -> Result<
    (ExprV, int),
    Halt,
>
    decreases ts.len() - j, 0int,
{
    if 0 <= j < ts.len() && (ts[j].1 is Plus || ts[j].1 is Pipe || ts[j].1 is Minus) {
        let minus = ts[j].1 is Minus;
        match parse_term(ts, j + 1) {
            Ok((r, j2)) => {
                let jn0 = if j2 > j + 1 {
                    j2
                } else {
                    j + 2
                };
                let jn = if jn0 > ts.len() {
                    ts.len() as int
                } else {
                    jn0
                };
                let node = if minus {
                    ExprV::Difference(Box::new(acc), Box::new(r))
                } else {
                    ExprV::Union(Box::new(acc), Box::new(r))
                };
                parse_union_rest(ts, node, jn)
            },
            Err(h) => Err(h),
        }
    } else {
        Ok((acc, j))
    }
}

/// Parse an expression: terms joined by `+`, `|` and `-` at one
/// left-associative level.
pub open spec fn parse_union(ts: Seq<(int, TokV, int)>, i: int) -> Result<(ExprV, int), Halt>
    decreases ts.len() - i, 3int,
{
    if i < 0 || i >= ts.len() {
        Err(Halt::Eof)
    } else {
        match parse_term(ts, i) {
        Ok((l, j)) => {
            let jn0 = if j > i {
                j
            } else {
                i + 1
            };
            let jn = if jn0 > ts.len() {
                ts.len() as int
            } else {
                jn0
            };
            parse_union_rest(ts, l, jn)
            },
            Err(h) => Err(h),
        }
    }
}

/// The tokens before the first lexical error, unwrapped.
pub open spec fn ok_prefix(toks: Seq<Result<(int, TokV, int), LexicalError>>) -> Seq<
    (int, TokV, int),
>
    decreases toks.len(),
{
    if toks.len() == 0 {
        Seq::empty()
    } else {
        match toks[0] {
            Ok(t) => seq![t] + ok_prefix(toks.drop_first()),
            Err(_) => Seq::empty(),
        }
    }
}

/// The first lexical error in the stream, if any.
pub open spec fn first_err(toks: Seq<Result<(int, TokV, int), LexicalError>>) -> Option<
    LexicalError,
>
    decreases toks.len(),
{
    if toks.len() == 0 {
        None
    } else {
        match toks[0] {
            Ok(_) => first_err(toks.drop_first()),
            Err(e) => Some(e),
        }
    }
}

/// Where an unexpected end of input is reported: after the last token.
pub open spec fn eof_location(ts: Seq<(int, TokV, int)>) -> int {
    if ts.len() == 0 {
        0
    } else {
        ts.last().2
    }
}

/// What parsing the query string `s` returns: the tree, or the exact error.
pub open spec fn parse_spec(s: Seq<char>) -> Result<ExprV, ParseErrV> {
    let toks = lex_spec(s);
    let ts = ok_prefix(toks);
    let err = first_err(toks);
    match parse_union(ts, 0) {
        Ok((e, j)) => if j < ts.len() {
            Err(
                ParseErrV::ExtraToken {
                    start: ts[j].0,
                    token: ts[j].1,
                    end: ts[j].2,
                },
            )
        } else if err is Some {
            Err(ParseErrV::User { error: err->Some_0 })
        } else {
            Ok(e)
        },
        Err(Halt::Eof) => if err is Some {
            Err(ParseErrV::User { error: err->Some_0 })
        } else {
            Err(ParseErrV::UnrecognizedEof { location: eof_location(ts) })
        },
        Err(Halt::Unrecognized(a, t, b)) => Err(
            ParseErrV::UnrecognizedToken { start: a, token: t, end: b },
        ),
        Err(Halt::Malformed) => Err(ParseErrV::User { error: LexicalError::MalformedInteger }),
    }
}

proof fn lemma_term_rest_step_err(ts: Seq<(int, TokV, int)>, acc: ExprV, j: int, h: Halt)
    requires
        0 <= j < ts.len(),
        ts[j].1 is Ampersand,
        parse_atom(ts, j + 1) == Err::<(ExprV, int), Halt>(h),
    ensures
        parse_term_rest(ts, acc, j) == Err::<(ExprV, int), Halt>(h),
{
}

proof fn lemma_union_rest_step(ts: Seq<(int, TokV, int)>, acc: ExprV, j: int, r: ExprV, j2: int)
    requires
        0 <= j < ts.len(),
        ts[j].1 is Plus || ts[j].1 is Pipe || ts[j].1 is Minus,
        parse_term(ts, j + 1) == Ok::<(ExprV, int), Halt>((r, j2)),
        j + 1 < j2 <= ts.len(),
    ensures
        parse_union_rest(ts, acc, j) == parse_union_rest(
            ts,
            if ts[j].1 is Minus {
                ExprV::Difference(Box::new(acc), Box::new(r))
            } else {
                ExprV::Union(Box::new(acc), Box::new(r))
            },
            j2,
        ),
{
}

proof fn lemma_union_rest_step_err(ts: Seq<(int, TokV, int)>, acc: ExprV, j: int, h: Halt)
    requires
        0 <= j < ts.len(),
        ts[j].1 is Plus || ts[j].1 is Pipe || ts[j].1 is Minus,
        parse_term(ts, j + 1) == Err::<(ExprV, int), Halt>(h),
    ensures
        parse_union_rest(ts, acc, j) == Err::<(ExprV, int), Halt>(h),
{
}

proof fn lemma_term_rest_step(ts: Seq<(int, TokV, int)>, acc: ExprV, j: int, r: ExprV, j2: int)
    requires
        0 <= j < ts.len(),
        ts[j].1 is Ampersand,
        parse_atom(ts, j + 1) == Ok::<(ExprV, int), Halt>((r, j2)),
        j + 1 < j2 <= ts.len(),
    ensures
        parse_term_rest(ts, acc, j) == parse_term_rest(
            ts,
            ExprV::Intersection(Box::new(acc), Box::new(r)),
            j2,
        ),
{
}

/// The mathematical shape of an executable token vector.
pub open spec fn toks_model(v: Seq<(usize, Tok, usize)>) -> Seq<(int, TokV, int)> {
    v.map_values(|t: (usize, Tok, usize)| (t.0 as int, tok_model(t.1), t.2 as int))
}

/// Every mention in the stream carries a digit-string payload.
pub open spec fn toks_digits(ts: Seq<(int, TokV, int)>) -> bool {
    forall|k: int| 0 <= k < ts.len() ==> crate::drql::lexer::tok_digits((#[trigger] ts[k]).1)
}

/// An equal token (the payload string copied).
fn clone_tok(t: &Tok) -> (r: Tok)
    ensures
        tok_model(r) == tok_model(*t),
{
    match t {
        Tok::Plus => Tok::Plus,
        Tok::Minus => Tok::Minus,
        Tok::Pipe => Tok::Pipe,
        Tok::Ampersand => Tok::Ampersand,
        Tok::LeftParen => Tok::LeftParen,
        Tok::RightParen => Tok::RightParen,
        Tok::StringLiteral(sq) => Tok::StringLiteral(sq.clone()),
        Tok::IDLiteral(sq) => Tok::IDLiteral(sq.clone()),
        Tok::UserMention(sq) => Tok::UserMention(sq.clone()),
        Tok::RoleMention(sq) => Tok::RoleMention(sq.clone()),
    }
}

/// Whether the token at `j` is `&`.
fn peek_amp(toks: &Vec<(usize, Tok, usize)>, j: usize) -> (r: bool)
    ensures
        r == (j < toks@.len() && toks_model(toks@)[j as int].1 is Ampersand),
{
    if j < toks.len() {
        match &toks[j].1 {
            Tok::Ampersand => true,
            _ => false,
        }
    } else {
        false
    }
}

/// Whether the token at `j` is `+`, `|` or `-`, and whether it is `-`.
fn peek_union_op(toks: &Vec<(usize, Tok, usize)>, j: usize) -> (r: (bool, bool))
    ensures
        r.0 == (j < toks@.len() && (toks_model(toks@)[j as int].1 is Plus || toks_model(
            toks@,
        )[j as int].1 is Pipe || toks_model(toks@)[j as int].1 is Minus)),
        r.0 ==> r.1 == toks_model(toks@)[j as int].1 is Minus,
{
    if j < toks.len() {
        match &toks[j].1 {
            Tok::Plus => (true, false),
            Tok::Pipe => (true, false),
            Tok::Minus => (true, true),
            _ => (false, false),
        }
    } else {
        (false, false)
    }
}

/// Parse one atom of the token stream.
fn parse_atom_exec(toks: &Vec<(usize, Tok, usize)>, i: usize) -> (r: Result<(Expr, usize), HaltE>)
    requires
        toks_digits(toks_model(toks@)),
    ensures
        match r {
            Ok(p) => parse_atom(toks_model(toks@), i as int) == Ok::<(ExprV, int), Halt>(
                (expr_model(p.0), p.1 as int),
            ) && i < p.1 <= toks@.len(),
            Err(h) => parse_atom(toks_model(toks@), i as int) == Err::<(ExprV, int), Halt>(
                halt_model(h),
            ),
        },
    decreases toks@.len() - i, 1int,
{
    let ghost ts = toks_model(toks@);
    let n = toks.len();
    if i >= n {
        return Err(HaltE::Eof);
    }
    let t = &toks[i];
    proof {
        assert(ts[i as int] == (t.0 as int, tok_model(t.1), t.2 as int));
        assert(crate::drql::lexer::tok_digits(ts[i as int].1));
    }
    match &t.1 {
        Tok::StringLiteral(sq) => Ok((Expr::StringLiteral(sq.clone()), i + 1)),
        Tok::IDLiteral(sq) => Ok((Expr::UnknownID(sq.clone()), i + 1)),
        Tok::UserMention(sq) => match parse_u64(sq.as_str()) {
            Some(v) => Ok((Expr::UserID(v), i + 1)),
            None => Err(HaltE::Malformed),
        },
        Tok::RoleMention(sq) => match parse_u64(sq.as_str()) {
            Some(v) => Ok((Expr::RoleID(v), i + 1)),
            None => Err(HaltE::Malformed),
        },
        Tok::LeftParen => match parse_union_exec(toks, i + 1) {
            Ok((e, j)) => {
                let close = if j < n {
                    match &toks[j].1 {
                        Tok::RightParen => true,
                        _ => false,
                    }
                } else {
                    false
                };
                proof {
                    if j < n {
                        assert(ts[j as int] == (
                            toks@[j as int].0 as int,
                            tok_model(toks@[j as int].1),
                            toks@[j as int].2 as int,
                        ));
                    }
                }
                if close {
                    Ok((e, j + 1))
                } else if j >= n {
                    Err(HaltE::Eof)
                } else {
                    let tj = &toks[j];
                    Err(HaltE::Unrecognized(tj.0, clone_tok(&tj.1), tj.2))
                }
            },
            Err(h) => Err(h),
        },
        Tok::Plus => Err(HaltE::Unrecognized(t.0, clone_tok(&t.1), t.2)),
        Tok::Minus => Err(HaltE::Unrecognized(t.0, clone_tok(&t.1), t.2)),
        Tok::Pipe => Err(HaltE::Unrecognized(t.0, clone_tok(&t.1), t.2)),
        Tok::Ampersand => Err(HaltE::Unrecognized(t.0, clone_tok(&t.1), t.2)),
        Tok::RightParen => Err(HaltE::Unrecognized(t.0, clone_tok(&t.1), t.2)),
    }
}

/// Parse one term of the token stream.
fn parse_term_exec(toks: &Vec<(usize, Tok, usize)>, i: usize) -> (r: Result<(Expr, usize), HaltE>)
    requires
        toks_digits(toks_model(toks@)),
    ensures
        match r {
            Ok(p) => parse_term(toks_model(toks@), i as int) == Ok::<(ExprV, int), Halt>(
                (expr_model(p.0), p.1 as int),
            ) && i < p.1 <= toks@.len(),
            Err(h) => parse_term(toks_model(toks@), i as int) == Err::<(ExprV, int), Halt>(
                halt_model(h),
            ),
        },
    decreases toks@.len() - i, 2int,
{
    let ghost ts = toks_model(toks@);
    let n = toks.len();
    if i >= n {
        return Err(HaltE::Eof);
    }
    let first = parse_atom_exec(toks, i);
    let mut acc: Expr;
    let mut j: usize;
    match first {
        Ok((e0, j0)) => {
            acc = e0;
            j = j0;
        },
        Err(h) => {
            return Err(h);
        },
    }
    proof {
        assert(parse_term(ts, i as int) == parse_term_rest(ts, expr_model(acc), j as int));
    }
    let mut more = peek_amp(toks, j);
    while more
        invariant
            ts == toks_model(toks@),
            ts.len() == n,
            toks_digits(ts),
            n == toks@.len(),
            i < j <= n,
            parse_term(ts, i as int) == parse_term_rest(ts, expr_model(acc), j as int),
            more == (j < n && ts[j as int].1 is Ampersand),
        decreases n - j,
    {
        match parse_atom_exec(toks, j + 1) {
            Ok((rhs, j2)) => {
                proof {
                    lemma_term_rest_step(ts, expr_model(acc), j as int, expr_model(rhs), j2 as int);
                }
                acc = Expr::Intersection(Box::new(acc), Box::new(rhs));
                j = j2;
            },
            Err(h) => {
                proof {
                    lemma_term_rest_step_err(ts, expr_model(acc), j as int, halt_model(h));
                }
                return Err(h);
            },
        }
        more = peek_amp(toks, j);
    }
    Ok((acc, j))
}

/// Parse one expression of the token stream.
fn parse_union_exec(toks: &Vec<(usize, Tok, usize)>, i: usize) -> (r: Result<(Expr, usize), HaltE>)
    requires
        toks_digits(toks_model(toks@)),
    ensures
        match r {
            Ok(p) => parse_union(toks_model(toks@), i as int) == Ok::<(ExprV, int), Halt>(
                (expr_model(p.0), p.1 as int),
            ) && i < p.1 <= toks@.len(),
            Err(h) => parse_union(toks_model(toks@), i as int) == Err::<(ExprV, int), Halt>(
                halt_model(h),
            ),
        },
    decreases toks@.len() - i, 3int,
{
    let ghost ts = toks_model(toks@);
    let n = toks.len();
    if i >= n {
        return Err(HaltE::Eof);
    }
    let first = parse_term_exec(toks, i);
    let mut acc: Expr;
    let mut j: usize;
    match first {
        Ok((e0, j0)) => {
            acc = e0;
            j = j0;
        },
        Err(h) => {
            return Err(h);
        },
    }
    proof {
        assert(parse_union(ts, i as int) == parse_union_rest(ts, expr_model(acc), j as int));
    }
    let (mut more, mut minus) = peek_union_op(toks, j);
    while more
        invariant
            ts == toks_model(toks@),
            ts.len() == n,
            toks_digits(ts),
            n == toks@.len(),
            i < j <= n,
            parse_union(ts, i as int) == parse_union_rest(ts, expr_model(acc), j as int),
            more == (j < n && (ts[j as int].1 is Plus || ts[j as int].1 is Pipe
                || ts[j as int].1 is Minus)),
            more ==> minus == ts[j as int].1 is Minus,
        decreases n - j,
    {
        match parse_term_exec(toks, j + 1) {
            Ok((rhs, j2)) => {
                proof {
                    lemma_union_rest_step(
                        ts,
                        expr_model(acc),
                        j as int,
                        expr_model(rhs),
                        j2 as int,
                    );
                }
                if minus {
                    acc = Expr::Difference(Box::new(acc), Box::new(rhs));
                } else {
                    acc = Expr::Union(Box::new(acc), Box::new(rhs));
                }
                j = j2;
            },
            Err(h) => {
                proof {
                    lemma_union_rest_step_err(ts, expr_model(acc), j as int, halt_model(h));
                }
                return Err(h);
            },
        }
        let ops = peek_union_op(toks, j);
        more = ops.0;
        minus = ops.1;
    }
    Ok((acc, j))
}

/// Parse a DRQL expression with the DRQL parser.
pub fn parse_drql(input: &str) -> (r: Result<Expr, ParseError>)
    ensures
        parse_result_model(r) == parse_spec(input@),
{
    let ghost s = input@;
    let mut lexer = DrqlLexer::new(input);
    let mut toks: Vec<(usize, Tok, usize)> = Vec::new();
    let mut lex_err: Option<LexicalError> = None;
    let mut done = false;
    proof {
        crate::drql::lexer::lemma_lex_from_digits(s, 0);
        assert(toks_model(toks@) =~= Seq::<(int, TokV, int)>::empty());
        assert(toks_model(toks@) + ok_prefix(lex_from(s, 0)) =~= ok_prefix(lex_from(s, 0)));
    }
    while !done
        invariant
            lexer.wf(),
            lexer.text() == s,
            toks_digits(toks_model(toks@)),
            match lex_err {
                None => {
                    &&& ok_prefix(lex_spec(s)) == toks_model(toks@) + ok_prefix(
                        lex_from(s, lexer.position()),
                    )
                    &&& first_err(lex_spec(s)) == first_err(lex_from(s, lexer.position()))
                    &&& (done ==> lex_from(s, lexer.position()) == Seq::<
                        Result<(int, TokV, int), LexicalError>,
                    >::empty())
                },
                Some(e) => {
                    &&& ok_prefix(lex_spec(s)) == toks_model(toks@)
                    &&& first_err(lex_spec(s)) == Some(e)
                    &&& done
                },
            },
        decreases (if done {
            0int
        } else {
            1int
        }), s.len() - lexer.position(),
    {
        let ghost pre_pos = lexer.position();
        let ghost pre_toks = toks_model(toks@);
        proof {
            lexer.lemma_position_bounds();
        }
        match lexer.next() {
            None => {
                done = true;
            },
            Some(item) => {
                proof {
                    crate::drql::lexer::lemma_lex_from_digits(s, pre_pos);
                    assert(lex_from(s, pre_pos)[0] == spanned_model(item));
                    assert((seq![spanned_model(item)] + lex_from(
                        s,
                        lexer.position(),
                    )).drop_first() =~= lex_from(s, lexer.position()));
                }
                match item {
                    Ok((a, t, b)) => {
                        proof {
                            assert(ok_prefix(lex_from(s, pre_pos)) == seq![
                                (a as int, tok_model(t), b as int),
                            ] + ok_prefix(lex_from(s, lexer.position())));
                            assert(first_err(lex_from(s, pre_pos)) == first_err(
                                lex_from(s, lexer.position()),
                            ));
                        }
                        toks.push((a, t, b));
                        proof {
                            assert(toks_model(toks@) =~= pre_toks.push(
                                (
                                    toks@.last().0 as int,
                                    tok_model(toks@.last().1),
                                    toks@.last().2 as int,
                                ),
                            ));
                            assert(pre_toks + (seq![toks_model(toks@).last()] + ok_prefix(
                                lex_from(s, lexer.position()),
                            )) =~= toks_model(toks@) + ok_prefix(lex_from(s, lexer.position())));
                            assert forall|k: int|
                                0 <= k < toks_model(toks@).len() implies crate::drql::lexer::tok_digits(
                                (#[trigger] toks_model(toks@)[k]).1,
                            ) by {
                                if k < pre_toks.len() {
                                    assert(toks_model(toks@)[k] == pre_toks[k]);
                                } else {
                                    assert(crate::drql::lexer::item_digits(
                                        lex_from(s, pre_pos)[0],
                                    ));
                                }
                            }
                        }
                    },
                    Err(e) => {
                        proof {
                            assert(ok_prefix(lex_from(s, pre_pos)) =~= Seq::<
                                (int, TokV, int),
                            >::empty());
                            assert(first_err(lex_from(s, pre_pos)) == Some(e));
                            assert(toks_model(toks@) + Seq::<(int, TokV, int)>::empty()
                                =~= toks_model(toks@));
                        }
                        lex_err = Some(e);
                        done = true;
                    },
                }
            },
        }
        proof {
            lexer.lemma_position_bounds();
        }
    }
    proof {
        if lex_err is None {
            assert(ok_prefix(lex_spec(s)) =~= toks_model(toks@));
        }
    }
    let ghost ts = toks_model(toks@);
    let outcome = parse_union_exec(&toks, 0);
    match outcome {
        Ok((e, j)) => {
            if j < toks.len() {
                let tj = &toks[j];
                proof {
                    assert(ts[j as int] == (tj.0 as int, tok_model(tj.1), tj.2 as int));
                }
                Err(
                    ParseError::ExtraToken {
                        start: tj.0,
                        token: clone_tok(&tj.1),
                        end: tj.2,
                    },
                )
            } else {
                match lex_err {
                    Some(le) => Err(ParseError::User { error: le }),
                    None => Ok(e),
                }
            }
        },
        Err(HaltE::Eof) => {
            match lex_err {
                Some(le) => Err(ParseError::User { error: le }),
                None => {
                    let location = if toks.len() == 0 {
                        0
                    } else {
                        toks[toks.len() - 1].2
                    };
                    proof {
                        if toks@.len() > 0 {
                            assert(ts.last() == (
                                toks@.last().0 as int,
                                tok_model(toks@.last().1),
                                toks@.last().2 as int,
                            ));
                        }
                    }
                    Err(ParseError::UnrecognizedEof { location })
                },
            }
        },
        Err(HaltE::Unrecognized(a, t, b)) => Err(
            ParseError::UnrecognizedToken { start: a, token: t, end: b },
        ),
        Err(HaltE::Malformed) => Err(
            ParseError::User { error: LexicalError::MalformedInteger },
        ),
    }
}

} // verus!
