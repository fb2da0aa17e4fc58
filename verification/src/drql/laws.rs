//! Round-trip law: re-parsing a rendered expression yields the same tree.
//!
//! [`lemma_render_parse_round_trip`] states it for every tree whose leaves
//! are [`renderable`]: names that are either bare identifiers (non-empty,
//! not starting with a digit) or quoted and [`well_escaped`] (every
//! backslash starts an escape pair, no unescaped quote), and raw IDs that
//! are non-empty digit strings. Those bounds are the true ones: a name with
//! an unescaped `"` in it, a name ending in a lone backslash, an empty name,
//! and a name of bare characters that starts with a digit all genuinely fail
//! to survive a round trip.

use vstd::prelude::*;

use crate::digits::all_digits;
use crate::digits::dec_digits;
use crate::digits::is_digit;
use crate::digits::lemma_dec_digits_value;
use crate::drql::ast::ExprV;
use crate::drql::ast::is_bare_char;
use crate::drql::ast::render_spec;
use crate::drql::ast::renders_bare;
use crate::drql::lexer::LexicalError;
use crate::drql::lexer::StrScan;
use crate::drql::lexer::TokV;
use crate::drql::lexer::digits_end;
use crate::drql::lexer::is_word_char;
use crate::drql::lexer::is_word_start;
use crate::drql::lexer::lex_from;
use crate::drql::lexer::lex_spec;
use crate::drql::lexer::string_scan;
use crate::drql::lexer::word_end;
use crate::drql::parser::Halt;
use crate::drql::parser::ParseErrV;
use crate::drql::parser::first_err;
use crate::drql::parser::ok_prefix;
use crate::drql::parser::parse_atom;
use crate::drql::parser::parse_spec;
use crate::drql::parser::parse_term;
use crate::drql::parser::parse_term_rest;
use crate::drql::parser::parse_union;
use crate::drql::parser::parse_union_rest;

verus! {

/// Re-lexing the name between quotes consumes exactly these characters:
/// every backslash starts a two-character escape pair, and no quote stands
/// unescaped.
pub open spec fn well_escaped(s: Seq<char>) -> bool
    decreases s.len(),
{
    if s.len() == 0 {
        true
    } else if s[0] == '"' {
        false
    } else if s[0] == '\\' {
        if s.len() >= 2 {
            well_escaped(s.skip(2))
        } else {
            false
        }
    } else {
        well_escaped(s.skip(1))
    }
}

/// Every leaf of `t` re-lexes to the single token it was rendered from: bare
/// names are non-empty and do not start with a digit, quoted names are well
/// escaped, and raw IDs are non-empty digit strings.
pub open spec fn renderable(t: ExprV) -> bool
    decreases t,
{
    match t {
        ExprV::Union(l, r) => renderable(*l) && renderable(*r),
        ExprV::Intersection(l, r) => renderable(*l) && renderable(*r),
        ExprV::Difference(l, r) => renderable(*l) && renderable(*r),
        ExprV::StringLiteral(s) => if renders_bare(s) {
            s.len() >= 1 && !is_digit(s[0])
        } else {
            well_escaped(s)
        },
        ExprV::UnknownID(d) => d.len() >= 1 && all_digits(d),
        ExprV::UserID(_) => true,
        ExprV::RoleID(_) => true,
    }
}

/// The tokens the rendering of `t` lexes to.
pub open spec fn tokens_of(t: ExprV) -> Seq<TokV>
    decreases t,
{
    match t {
        ExprV::Union(l, r) => seq![TokV::LeftParen] + tokens_of(*l) + seq![TokV::Pipe] + tokens_of(
            *r,
        ) + seq![TokV::RightParen],
        ExprV::Intersection(l, r) => seq![TokV::LeftParen] + tokens_of(*l) + seq![TokV::Ampersand]
            + tokens_of(*r) + seq![TokV::RightParen],
        ExprV::Difference(l, r) => seq![TokV::LeftParen] + tokens_of(*l) + seq![TokV::Minus]
            + tokens_of(*r) + seq![TokV::RightParen],
        ExprV::StringLiteral(s) => seq![TokV::StringLiteral(s)],
        ExprV::UnknownID(d) => seq![TokV::IDLiteral(d)],
        ExprV::UserID(id) => seq![TokV::UserMention(dec_digits(id as int))],
        ExprV::RoleID(id) => seq![TokV::RoleMention(dec_digits(id as int))],
    }
}

/// The lexed items of the rendering of `t` placed at offset `i`.
pub open spec fn items_of(t: ExprV, i: int) -> Seq<Result<(int, TokV, int), LexicalError>>
    decreases t,
{
    match t {
        ExprV::Union(l, r) => {
            let ll = render_spec(*l).len() as int;
            let full = render_spec(t).len() as int;
            seq![Ok((i, TokV::LeftParen, i + 1))] + items_of(*l, i + 1) + seq![
                Ok((i + 1 + ll + 1, TokV::Pipe, i + 1 + ll + 2)),
            ] + items_of(*r, i + 1 + ll + 3) + seq![
                Ok((i + full - 1, TokV::RightParen, i + full)),
            ]
        },
        ExprV::Intersection(l, r) => {
            let ll = render_spec(*l).len() as int;
            let full = render_spec(t).len() as int;
            seq![Ok((i, TokV::LeftParen, i + 1))] + items_of(*l, i + 1) + seq![
                Ok((i + 1 + ll + 1, TokV::Ampersand, i + 1 + ll + 2)),
            ] + items_of(*r, i + 1 + ll + 3) + seq![
                Ok((i + full - 1, TokV::RightParen, i + full)),
            ]
        },
        ExprV::Difference(l, r) => {
            let ll = render_spec(*l).len() as int;
            let full = render_spec(t).len() as int;
            seq![Ok((i, TokV::LeftParen, i + 1))] + items_of(*l, i + 1) + seq![
                Ok((i + 1 + ll + 1, TokV::Minus, i + 1 + ll + 2)),
            ] + items_of(*r, i + 1 + ll + 3) + seq![
                Ok((i + full - 1, TokV::RightParen, i + full)),
            ]
        },
        ExprV::StringLiteral(s) => seq![
            Ok((i, TokV::StringLiteral(s), i + render_spec(t).len())),
        ],
        ExprV::UnknownID(d) => seq![Ok((i, TokV::IDLiteral(d), i + render_spec(t).len()))],
        ExprV::UserID(id) => seq![
            Ok((i, TokV::UserMention(dec_digits(id as int)), i + render_spec(t).len())),
        ],
        ExprV::RoleID(id) => seq![
            Ok((i, TokV::RoleMention(dec_digits(id as int)), i + render_spec(t).len())),
        ],
    }
}

/// A rendering lexes to at least one token.
pub proof fn lemma_tokens_len(t: ExprV)
    ensures
        tokens_of(t).len() >= 1,
{
}

/// The lexed items are all tokens (no errors), one per entry of
/// [`tokens_of`], in order.
pub proof fn lemma_items_tokens(t: ExprV, i: int)
    ensures
        items_of(t, i).len() == tokens_of(t).len(),
        forall|k: int|
            0 <= k < items_of(t, i).len() ==> (#[trigger] items_of(t, i)[k]) is Ok && items_of(
                t,
                i,
            )[k]->Ok_0.1 == tokens_of(t)[k],
    decreases t,
{
    match t {
        ExprV::Union(l, r) => {
            lemma_items_tokens(*l, i + 1);
            lemma_items_tokens(*r, i + 1 + render_spec(*l).len() + 3);
        },
        ExprV::Intersection(l, r) => {
            lemma_items_tokens(*l, i + 1);
            lemma_items_tokens(*r, i + 1 + render_spec(*l).len() + 3);
        },
        ExprV::Difference(l, r) => {
            lemma_items_tokens(*l, i + 1);
            lemma_items_tokens(*r, i + 1 + render_spec(*l).len() + 3);
        },
        _ => {},
    }
}

/// A stream of only tokens has them all in its prefix and holds no error.
pub proof fn lemma_ok_prefix_all_ok(items: Seq<Result<(int, TokV, int), LexicalError>>)
    requires
        forall|k: int| 0 <= k < items.len() ==> (#[trigger] items[k]) is Ok,
    ensures
        ok_prefix(items).len() == items.len(),
        forall|k: int|
            0 <= k < items.len() ==> (#[trigger] ok_prefix(items)[k]) == items[k]->Ok_0,
        first_err(items) is None,
    decreases items.len(),
{
    if items.len() > 0 {
        assert(items[0] is Ok);
        assert(forall|k: int|
            0 <= k < items.drop_first().len() ==> (#[trigger] items.drop_first()[k]) is Ok);
        lemma_ok_prefix_all_ok(items.drop_first());
        assert forall|k: int| 0 <= k < items.len() implies (#[trigger] ok_prefix(items)[k])
            == items[k]->Ok_0 by {
            if k == 0 {
            } else {
                assert(ok_prefix(items)[k] == ok_prefix(items.drop_first())[k - 1]);
                assert(items.drop_first()[k - 1] == items[k]);
            }
        }
    }
}

proof fn lemma_word_end_of_run(s: Seq<char>, j: int, e: int)
    requires
        0 <= j <= e <= s.len(),
        forall|m: int| j <= m < e ==> is_word_char(#[trigger] s[m]),
        e == s.len() || !is_word_char(s[e]),
    ensures
        word_end(s, j) == e,
    decreases e - j,
{
    if j < e {
        lemma_word_end_of_run(s, j + 1, e);
    }
}

proof fn lemma_digits_end_of_run(s: Seq<char>, j: int, e: int)
    requires
        0 <= j <= e <= s.len(),
        forall|m: int| j <= m < e ==> is_digit(#[trigger] s[m]),
        e == s.len() || !is_digit(s[e]),
    ensures
        digits_end(s, j) == e,
    decreases e - j,
{
    if j < e {
        lemma_digits_end_of_run(s, j + 1, e);
    }
}

proof fn lemma_string_scan_escaped(s: Seq<char>, j: int, e: int)
    requires
        0 <= j <= e < s.len(),
        well_escaped(s.subrange(j, e)),
        s[e] == '"',
    ensures
        string_scan(s, j) == StrScan::Closed(e),
    decreases e - j,
{
    let w = s.subrange(j, e);
    if j < e {
        assert(s[j] == w[0]);
        if s[j] == '\\' {
            assert(w.len() >= 2);
            assert(s.subrange(j + 2, e) =~= w.skip(2));
            lemma_string_scan_escaped(s, j + 2, e);
        } else {
            assert(s.subrange(j + 1, e) =~= w.skip(1));
            lemma_string_scan_escaped(s, j + 1, e);
        }
    }
}

/// The character of `s` at offset `m` into a subrange known to equal `r`.
proof fn lemma_char_at(s: Seq<char>, i: int, r: Seq<char>, m: int)
    requires
        0 <= i,
        i + r.len() <= s.len(),
        s.subrange(i, i + r.len() as int) == r,
        0 <= m < r.len(),
    ensures
        s[i + m] == r[m],
{
    assert(s.subrange(i, i + r.len() as int)[m] == s[i + m]);
}

/// One binary operator node lexes to: `(`, the left child's tokens, the
/// operator, the right child's tokens, `)` — given that the children do.
#[verifier::rlimit(60)]
proof fn lemma_lex_render_binop(
    s: Seq<char>,
    i: int,
    t: ExprV,
    l: ExprV,
    r: ExprV,
    opc: char,
    opt: TokV,
)
    requires
        render_spec(t) == seq!['('] + render_spec(l) + seq![' ', opc, ' '] + render_spec(r)
            + seq![')'],
        items_of(t, i) == seq![
            Ok::<(int, TokV, int), LexicalError>((i, TokV::LeftParen, i + 1)),
        ] + items_of(l, i + 1) + seq![
            Ok::<(int, TokV, int), LexicalError>(
                (
                    i + 1 + render_spec(l).len() + 1,
                    opt,
                    i + 1 + render_spec(l).len() + 2,
                ),
            ),
        ] + items_of(r, i + 1 + render_spec(l).len() + 3) + seq![
            Ok::<(int, TokV, int), LexicalError>(
                (i + render_spec(t).len() - 1, TokV::RightParen, i + render_spec(t).len()),
            ),
        ],
        (opc == '|' && opt == TokV::Pipe) || (opc == '&' && opt == TokV::Ampersand) || (opc == '-'
            && opt == TokV::Minus),
        0 <= i,
        i + render_spec(t).len() <= s.len(),
        s.subrange(i, i + render_spec(t).len() as int) == render_spec(t),
        lex_from(s, i + 1) == items_of(l, i + 1) + lex_from(s, i + 1 + render_spec(l).len()),
        lex_from(s, i + 1 + render_spec(l).len() + 3) == items_of(
            r,
            i + 1 + render_spec(l).len() + 3,
        ) + lex_from(s, i + render_spec(t).len() - 1),
    ensures
        lex_from(s, i) == items_of(t, i) + lex_from(s, i + render_spec(t).len()),
{
    let bigr = render_spec(t);
    let big = bigr.len() as int;
    let fin = i + big;
    let rl = render_spec(l);
    let ll = rl.len() as int;
    let rrr = render_spec(r);
    let rr = rrr.len() as int;
    let jl = i + 1 + ll;
    let jr = jl + 3;
    assert(big == 1 + ll + 3 + rr + 1);
    lemma_char_at(s, i, bigr, 0);
    assert(s[i] == '(');
    assert(lex_from(s, i) == seq![
        Ok::<(int, TokV, int), LexicalError>((i, TokV::LeftParen, i + 1)),
    ] + lex_from(s, i + 1));
    lemma_char_at(s, i, bigr, 1 + ll);
    assert(s[jl] == ' ');
    assert(lex_from(s, jl) == lex_from(s, jl + 1));
    lemma_char_at(s, i, bigr, 1 + ll + 1);
    assert(s[jl + 1] == opc);
    if opc == '|' {
        assert(lex_from(s, jl + 1) == seq![
            Ok::<(int, TokV, int), LexicalError>((jl + 1, TokV::Pipe, jl + 2)),
        ] + lex_from(s, jl + 2));
    } else if opc == '&' {
        assert(lex_from(s, jl + 1) == seq![
            Ok::<(int, TokV, int), LexicalError>((jl + 1, TokV::Ampersand, jl + 2)),
        ] + lex_from(s, jl + 2));
    } else {
        assert(lex_from(s, jl + 1) == seq![
            Ok::<(int, TokV, int), LexicalError>((jl + 1, TokV::Minus, jl + 2)),
        ] + lex_from(s, jl + 2));
    }
    lemma_char_at(s, i, bigr, 1 + ll + 2);
    assert(s[jl + 2] == ' ');
    assert(lex_from(s, jl + 2) == lex_from(s, jl + 3));
    lemma_char_at(s, i, bigr, big - 1);
    assert(s[fin - 1] == ')');
    assert(lex_from(s, fin - 1) == seq![
        Ok::<(int, TokV, int), LexicalError>((fin - 1, TokV::RightParen, fin)),
    ] + lex_from(s, fin));
    assert(lex_from(s, i) == seq![
        Ok::<(int, TokV, int), LexicalError>((i, TokV::LeftParen, i + 1)),
    ] + (items_of(l, i + 1) + (seq![Ok::<(int, TokV, int), LexicalError>((jl + 1, opt, jl + 2))]
        + (items_of(r, jr) + (seq![
        Ok::<(int, TokV, int), LexicalError>((fin - 1, TokV::RightParen, fin)),
    ] + lex_from(s, fin))))));
    assert(lex_from(s, i) =~= items_of(t, i) + lex_from(s, fin));
}

/// The rendering of `t`, standing at `i` in `s` with a boundary after it,
/// lexes to exactly the items of `t` followed by the rest of the text.
#[verifier::rlimit(60)]
pub proof fn lemma_lex_render(s: Seq<char>, i: int, t: ExprV)
    requires
        renderable(t),
        0 <= i,
        i + render_spec(t).len() <= s.len(),
        s.subrange(i, i + render_spec(t).len() as int) == render_spec(t),
        i + render_spec(t).len() == s.len() || s[i + render_spec(t).len()] == ' ' || s[i
            + render_spec(t).len()] == ')',
    ensures
        lex_from(s, i) == items_of(t, i) + lex_from(s, i + render_spec(t).len()),
    decreases t,
{
    let bigr = render_spec(t);
    let big = bigr.len() as int;
    let fin = i + big;
    match t {
        ExprV::Union(bl, br) => {
            lemma_lex_child_requirements(s, i, t, *bl, *br);
            lemma_lex_render(s, i + 1, *bl);
            lemma_lex_render(s, i + 1 + render_spec(*bl).len() + 3, *br);
            lemma_lex_render_binop(s, i, t, *bl, *br, '|', TokV::Pipe);
        },
        ExprV::Intersection(bl, br) => {
            lemma_lex_child_requirements(s, i, t, *bl, *br);
            lemma_lex_render(s, i + 1, *bl);
            lemma_lex_render(s, i + 1 + render_spec(*bl).len() + 3, *br);
            lemma_lex_render_binop(s, i, t, *bl, *br, '&', TokV::Ampersand);
        },
        ExprV::Difference(bl, br) => {
            lemma_lex_child_requirements(s, i, t, *bl, *br);
            lemma_lex_render(s, i + 1, *bl);
            lemma_lex_render(s, i + 1 + render_spec(*bl).len() + 3, *br);
            lemma_lex_render_binop(s, i, t, *bl, *br, '-', TokV::Minus);
        },
        ExprV::StringLiteral(s0) => {
            if renders_bare(s0) {
                assert(bigr == s0);
                assert(is_bare_char(s0[0]));
                lemma_char_at(s, i, bigr, 0);
                assert(is_word_start(s[i]));
                assert forall|m: int| i + 1 <= m < fin implies is_word_char(#[trigger] s[m]) by {
                    lemma_char_at(s, i, bigr, m - i);
                    assert(is_bare_char(s0[m - i]));
                }
                lemma_word_end_of_run(s, i + 1, fin);
                assert(s.subrange(i, word_end(s, i + 1)) == s0);
                assert(lex_from(s, i) =~= items_of(t, i) + lex_from(s, fin));
            } else {
                assert(bigr == seq!['"'] + s0 + seq!['"']);
                lemma_char_at(s, i, bigr, 0);
                assert(s[i] == '"');
                lemma_char_at(s, i, bigr, big - 1);
                assert(s[fin - 1] == '"');
                assert forall|m: int| 0 <= m < s0.len() implies s.subrange(i + 1, fin - 1)[m]
                    == s0[m] by {
                    lemma_char_at(s, i, bigr, 1 + m);
                    assert(bigr[1 + m] == s0[m]);
                }
                assert(s.subrange(i + 1, fin - 1) =~= s0);
                assert(well_escaped(s.subrange(i + 1, fin - 1)));
                lemma_string_scan_escaped(s, i + 1, fin - 1);
                assert(lex_from(s, i) =~= items_of(t, i) + lex_from(s, fin));
            }
        },
        ExprV::UnknownID(d) => {
            assert(bigr == d);
            lemma_char_at(s, i, bigr, 0);
            assert(is_digit(s[i]));
            assert forall|m: int| i + 1 <= m < fin implies is_digit(#[trigger] s[m]) by {
                lemma_char_at(s, i, bigr, m - i);
            }
            lemma_digits_end_of_run(s, i + 1, fin);
            assert(s.subrange(i, digits_end(s, i + 1)) == d);
            assert(!is_word_start(s[i]));
            assert(lex_from(s, i) =~= items_of(t, i) + lex_from(s, fin));
        },
        ExprV::UserID(id) => {
            lemma_dec_digits_value(id as int);
            let d = dec_digits(id as int);
            assert(bigr == seq!['<', '@'] + d + seq!['>']);
            lemma_char_at(s, i, bigr, 0);
            lemma_char_at(s, i, bigr, 1);
            lemma_char_at(s, i, bigr, 2);
            assert(s[i] == '<');
            assert(s[i + 1] == '@');
            assert(s[i + 2] == d[0]);
            assert(is_digit(s[i + 2]));
            assert forall|m: int| i + 2 <= m < fin - 1 implies is_digit(#[trigger] s[m]) by {
                lemma_char_at(s, i, bigr, m - i);
                assert(bigr[m - i] == d[m - i - 2]);
            }
            lemma_char_at(s, i, bigr, big - 1);
            assert(s[fin - 1] == '>');
            lemma_digits_end_of_run(s, i + 2, fin - 1);
            assert forall|m: int| 0 <= m < d.len() implies s.subrange(i + 2, fin - 1)[m]
                == d[m] by {
                lemma_char_at(s, i, bigr, 2 + m);
                assert(bigr[2 + m] == d[m]);
            }
            assert(s.subrange(i + 2, fin - 1) =~= d);
            assert(lex_from(s, i) =~= items_of(t, i) + lex_from(s, fin));
        },
        ExprV::RoleID(id) => {
            lemma_dec_digits_value(id as int);
            let d = dec_digits(id as int);
            assert(bigr == seq!['<', '@', '&'] + d + seq!['>']);
            lemma_char_at(s, i, bigr, 0);
            lemma_char_at(s, i, bigr, 1);
            lemma_char_at(s, i, bigr, 2);
            lemma_char_at(s, i, bigr, 3);
            assert(s[i] == '<');
            assert(s[i + 1] == '@');
            assert(s[i + 2] == '&');
            assert(s[i + 3] == d[0]);
            assert(is_digit(s[i + 3]));
            assert forall|m: int| i + 3 <= m < fin - 1 implies is_digit(#[trigger] s[m]) by {
                lemma_char_at(s, i, bigr, m - i);
                assert(bigr[m - i] == d[m - i - 3]);
            }
            lemma_char_at(s, i, bigr, big - 1);
            assert(s[fin - 1] == '>');
            lemma_digits_end_of_run(s, i + 3, fin - 1);
            assert forall|m: int| 0 <= m < d.len() implies s.subrange(i + 3, fin - 1)[m]
                == d[m] by {
                lemma_char_at(s, i, bigr, 3 + m);
                assert(bigr[3 + m] == d[m]);
            }
            assert(s.subrange(i + 3, fin - 1) =~= d);
            assert(lex_from(s, i) =~= items_of(t, i) + lex_from(s, fin));
        },
    }
}

/// The children of a binary node stand inside its rendering with the right
/// boundaries after them.
proof fn lemma_lex_child_requirements(s: Seq<char>, i: int, t: ExprV, l: ExprV, r: ExprV)
    requires
        (t == ExprV::Union(Box::new(l), Box::new(r)) && render_spec(t) == seq!['(']
            + render_spec(l) + seq![' ', '|', ' '] + render_spec(r) + seq![')']) || (t
            == ExprV::Intersection(Box::new(l), Box::new(r)) && render_spec(t) == seq!['(']
            + render_spec(l) + seq![' ', '&', ' '] + render_spec(r) + seq![')']) || (t
            == ExprV::Difference(Box::new(l), Box::new(r)) && render_spec(t) == seq!['(']
            + render_spec(l) + seq![' ', '-', ' '] + render_spec(r) + seq![')']),
        0 <= i,
        i + render_spec(t).len() <= s.len(),
        s.subrange(i, i + render_spec(t).len() as int) == render_spec(t),
    ensures
        i + 1 + render_spec(l).len() <= s.len(),
        s.subrange(i + 1, i + 1 + render_spec(l).len() as int) == render_spec(l),
        s[i + 1 + render_spec(l).len()] == ' ',
        i + 1 + render_spec(l).len() + 3 + render_spec(r).len() <= s.len(),
        s.subrange(
            i + 1 + render_spec(l).len(),
            i + 1 + render_spec(l).len() + 3,
        ) == seq![' ', '|', ' '] || s.subrange(
            i + 1 + render_spec(l).len(),
            i + 1 + render_spec(l).len() + 3,
        ) == seq![' ', '&', ' '] || s.subrange(
            i + 1 + render_spec(l).len(),
            i + 1 + render_spec(l).len() + 3,
        ) == seq![' ', '-', ' '],
        s.subrange(
            i + 1 + render_spec(l).len() + 3,
            i + 1 + render_spec(l).len() + 3 + render_spec(r).len() as int,
        ) == render_spec(r),
        s[i + 1 + render_spec(l).len() + 3 + render_spec(r).len()] == ')',
{
    let bigr = render_spec(t);
    let big = bigr.len() as int;
    let fin = i + big;
    let ll = render_spec(l).len() as int;
    let rr = render_spec(r).len() as int;
    assert(big == 1 + ll + 3 + rr + 1);
    assert forall|m: int| 0 <= m < ll implies s.subrange(i + 1, i + 1 + ll)[m] == render_spec(
        l,
    )[m] by {
        lemma_char_at(s, i, bigr, 1 + m);
        assert(bigr[1 + m] == render_spec(l)[m]);
    }
    assert(s.subrange(i + 1, i + 1 + ll) =~= render_spec(l));
    assert forall|m: int| 0 <= m < rr implies s.subrange(i + 1 + ll + 3, i + 1 + ll + 3 + rr)[m]
        == render_spec(r)[m] by {
        lemma_char_at(s, i, bigr, 1 + ll + 3 + m);
        assert(bigr[1 + ll + 3 + m] == render_spec(r)[m]);
    }
    assert(s.subrange(i + 1 + ll + 3, i + 1 + ll + 3 + rr) =~= render_spec(r));
    lemma_char_at(s, i, bigr, 1 + ll);
    lemma_char_at(s, i, bigr, 1 + ll + 1);
    lemma_char_at(s, i, bigr, 1 + ll + 2);
    if t is Union {
        assert(s.subrange(i + 1 + ll, i + 1 + ll + 3) =~= seq![' ', '|', ' ']);
    } else if t is Intersection {
        assert(s.subrange(i + 1 + ll, i + 1 + ll + 3) =~= seq![' ', '&', ' ']);
    } else {
        assert(s.subrange(i + 1 + ll, i + 1 + ll + 3) =~= seq![' ', '-', ' ']);
    }
    lemma_char_at(s, i, bigr, big - 1);
}

/// Parsing the tokens of a rendered tree from `i` rebuilds exactly the tree,
/// consuming exactly its tokens.
#[verifier::rlimit(100)]
pub proof fn lemma_parse_tokens(ts: Seq<(int, TokV, int)>, i: int, t: ExprV)
    requires
        0 <= i,
        i + tokens_of(t).len() <= ts.len(),
        forall|k: int| 0 <= k < tokens_of(t).len() ==> ts[i + k].1 == #[trigger] tokens_of(t)[k],
    ensures
        parse_atom(ts, i) == Ok::<(ExprV, int), Halt>((t, i + tokens_of(t).len())),
    decreases t,
{
    let nt = tokens_of(t);
    match t {
        ExprV::Union(bl, br) => {
            let l = *bl;
            let r = *br;
            let tl = tokens_of(l);
            let tr = tokens_of(r);
            lemma_tokens_len(l);
            lemma_tokens_len(r);
            assert(nt.len() == 1 + tl.len() + 1 + tr.len() + 1);
            let jl = i + 1 + tl.len() as int;
            let j2 = jl + 1 + tr.len() as int;
            assert(ts[i + 0].1 == nt[0]);
            assert(nt[0] == TokV::LeftParen);
            assert forall|k: int| 0 <= k < tl.len() implies ts[i + 1 + k].1 == #[trigger] tl[k] by {
                assert(ts[i + (1 + k)].1 == nt[1 + k]);
                assert(nt[1 + k] == tl[k]);
            }
            lemma_parse_tokens(ts, i + 1, l);
            assert(parse_term(ts, i + 1) == parse_term_rest(ts, l, jl));
            assert(ts[i + (1 + tl.len() as int)].1 == nt[1 + tl.len() as int]);
            assert(nt[1 + tl.len() as int] == TokV::Pipe);
            assert(parse_term_rest(ts, l, jl) == Ok::<(ExprV, int), Halt>((l, jl)));
            assert(parse_union(ts, i + 1) == parse_union_rest(ts, l, jl));
            assert forall|k: int| 0 <= k < tr.len() implies ts[jl + 1 + k].1
                == #[trigger] tr[k] by {
                assert(ts[i + (2 + tl.len() as int + k)].1 == nt[2 + tl.len() as int + k]);
                assert(nt[2 + tl.len() as int + k] == tr[k]);
            }
            lemma_parse_tokens(ts, jl + 1, r);
            assert(parse_term(ts, jl + 1) == parse_term_rest(ts, r, j2));
            assert(ts[i + (2 + tl.len() as int + tr.len() as int)].1 == nt[2 + tl.len() as int + tr.len() as int]);
            assert(nt[2 + tl.len() as int + tr.len() as int] == TokV::RightParen);
            assert(ts[j2].1 == TokV::RightParen);
            assert(parse_term_rest(ts, r, j2) == Ok::<(ExprV, int), Halt>((r, j2)));
            assert(parse_union_rest(ts, l, jl) == parse_union_rest(
                ts,
                ExprV::Union(Box::new(l), Box::new(r)),
                j2,
            ));
            assert(parse_union_rest(ts, ExprV::Union(Box::new(l), Box::new(r)), j2) == Ok::<
                (ExprV, int),
                Halt,
            >((t, j2)));
            assert(parse_union(ts, i + 1) == Ok::<(ExprV, int), Halt>((t, j2)));
            assert(parse_atom(ts, i) == Ok::<(ExprV, int), Halt>((t, j2 + 1)));
        },
        ExprV::Intersection(bl, br) => {
            let l = *bl;
            let r = *br;
            let tl = tokens_of(l);
            let tr = tokens_of(r);
            lemma_tokens_len(l);
            lemma_tokens_len(r);
            assert(nt.len() == 1 + tl.len() + 1 + tr.len() + 1);
            let jl = i + 1 + tl.len() as int;
            let j2 = jl + 1 + tr.len() as int;
            assert(ts[i + 0].1 == nt[0]);
            assert(nt[0] == TokV::LeftParen);
            assert forall|k: int| 0 <= k < tl.len() implies ts[i + 1 + k].1 == #[trigger] tl[k] by {
                assert(ts[i + (1 + k)].1 == nt[1 + k]);
                assert(nt[1 + k] == tl[k]);
            }
            lemma_parse_tokens(ts, i + 1, l);
            assert(ts[i + (1 + tl.len() as int)].1 == nt[1 + tl.len() as int]);
            assert(nt[1 + tl.len() as int] == TokV::Ampersand);
            assert forall|k: int| 0 <= k < tr.len() implies ts[jl + 1 + k].1
                == #[trigger] tr[k] by {
                assert(ts[i + (2 + tl.len() as int + k)].1 == nt[2 + tl.len() as int + k]);
                assert(nt[2 + tl.len() as int + k] == tr[k]);
            }
            lemma_parse_tokens(ts, jl + 1, r);
            assert(ts[i + (2 + tl.len() as int + tr.len() as int)].1 == nt[2 + tl.len() as int + tr.len() as int]);
            assert(nt[2 + tl.len() as int + tr.len() as int] == TokV::RightParen);
            assert(ts[j2].1 == TokV::RightParen);
            // the term level folds the intersection
            assert(parse_term_rest(ts, l, jl) == parse_term_rest(
                ts,
                ExprV::Intersection(Box::new(l), Box::new(r)),
                j2,
            ));
            assert(parse_term_rest(ts, ExprV::Intersection(Box::new(l), Box::new(r)), j2) == Ok::<
                (ExprV, int),
                Halt,
            >((t, j2)));
            assert(parse_term(ts, i + 1) == Ok::<(ExprV, int), Halt>((t, j2)));
            assert(parse_union(ts, i + 1) == parse_union_rest(ts, t, j2));
            assert(parse_union_rest(ts, t, j2) == Ok::<(ExprV, int), Halt>((t, j2)));
            assert(parse_atom(ts, i) == Ok::<(ExprV, int), Halt>((t, j2 + 1)));
        },
        ExprV::Difference(bl, br) => {
            let l = *bl;
            let r = *br;
            let tl = tokens_of(l);
            let tr = tokens_of(r);
            lemma_tokens_len(l);
            lemma_tokens_len(r);
            assert(nt.len() == 1 + tl.len() + 1 + tr.len() + 1);
            let jl = i + 1 + tl.len() as int;
            let j2 = jl + 1 + tr.len() as int;
            assert(ts[i + 0].1 == nt[0]);
            assert(nt[0] == TokV::LeftParen);
            assert forall|k: int| 0 <= k < tl.len() implies ts[i + 1 + k].1 == #[trigger] tl[k] by {
                assert(ts[i + (1 + k)].1 == nt[1 + k]);
                assert(nt[1 + k] == tl[k]);
            }
            lemma_parse_tokens(ts, i + 1, l);
            assert(parse_term(ts, i + 1) == parse_term_rest(ts, l, jl));
            assert(ts[i + (1 + tl.len() as int)].1 == nt[1 + tl.len() as int]);
            assert(nt[1 + tl.len() as int] == TokV::Minus);
            assert(parse_term_rest(ts, l, jl) == Ok::<(ExprV, int), Halt>((l, jl)));
            assert(parse_union(ts, i + 1) == parse_union_rest(ts, l, jl));
            assert forall|k: int| 0 <= k < tr.len() implies ts[jl + 1 + k].1
                == #[trigger] tr[k] by {
                assert(ts[i + (2 + tl.len() as int + k)].1 == nt[2 + tl.len() as int + k]);
                assert(nt[2 + tl.len() as int + k] == tr[k]);
            }
            lemma_parse_tokens(ts, jl + 1, r);
            assert(parse_term(ts, jl + 1) == parse_term_rest(ts, r, j2));
            assert(ts[i + (2 + tl.len() as int + tr.len() as int)].1 == nt[2 + tl.len() as int + tr.len() as int]);
            assert(nt[2 + tl.len() as int + tr.len() as int] == TokV::RightParen);
            assert(ts[j2].1 == TokV::RightParen);
            assert(parse_term_rest(ts, r, j2) == Ok::<(ExprV, int), Halt>((r, j2)));
            assert(parse_union_rest(ts, l, jl) == parse_union_rest(
                ts,
                ExprV::Difference(Box::new(l), Box::new(r)),
                j2,
            ));
            assert(parse_union_rest(ts, ExprV::Difference(Box::new(l), Box::new(r)), j2) == Ok::<
                (ExprV, int),
                Halt,
            >((t, j2)));
            assert(parse_union(ts, i + 1) == Ok::<(ExprV, int), Halt>((t, j2)));
            assert(parse_atom(ts, i) == Ok::<(ExprV, int), Halt>((t, j2 + 1)));
        },
        ExprV::StringLiteral(s0) => {
            assert(ts[i + 0].1 == nt[0]);
            assert(nt[0] == TokV::StringLiteral(s0));
        },
        ExprV::UnknownID(d) => {
            assert(ts[i + 0].1 == nt[0]);
            assert(nt[0] == TokV::IDLiteral(d));
        },
        ExprV::UserID(id) => {
            assert(ts[i + 0].1 == nt[0]);
            assert(nt[0] == TokV::UserMention(dec_digits(id as int)));
            lemma_dec_digits_value(id as int);
        },
        ExprV::RoleID(id) => {
            assert(ts[i + 0].1 == nt[0]);
            assert(nt[0] == TokV::RoleMention(dec_digits(id as int)));
            lemma_dec_digits_value(id as int);
        },
    }
}

/// Round trip: re-parsing the canonical rendering of a renderable tree
/// yields a structurally equal tree.
pub proof fn lemma_render_parse_round_trip(t: ExprV)
    requires
        renderable(t),
    ensures
        parse_spec(render_spec(t)) == Ok::<ExprV, ParseErrV>(t),
{
    let bigr = render_spec(t);
    let big = bigr.len() as int;
    assert(bigr.subrange(0, big) =~= bigr);
    lemma_lex_render(bigr, 0, t);
    assert(lex_from(bigr, big) =~= Seq::<Result<(int, TokV, int), LexicalError>>::empty());
    assert(items_of(t, 0) + Seq::<Result<(int, TokV, int), LexicalError>>::empty() =~= items_of(
        t,
        0,
    ));
    assert(lex_spec(bigr) == items_of(t, 0));
    lemma_items_tokens(t, 0);
    assert forall|k: int| 0 <= k < lex_spec(bigr).len() implies (#[trigger] lex_spec(
        bigr,
    )[k]) is Ok by {
        assert(lex_spec(bigr)[k] == items_of(t, 0)[k]);
    }
    lemma_ok_prefix_all_ok(lex_spec(bigr));
    let ts = ok_prefix(lex_spec(bigr));
    assert(ts.len() == tokens_of(t).len());
    assert forall|k: int| 0 <= k < tokens_of(t).len() implies ts[0 + k].1 == #[trigger] tokens_of(
        t,
    )[k] by {
        assert(ok_prefix(lex_spec(bigr))[k] == lex_spec(bigr)[k]->Ok_0);
        assert(lex_spec(bigr)[k] == items_of(t, 0)[k]);
        assert(items_of(t, 0)[k]->Ok_0.1 == tokens_of(t)[k]);
    }
    lemma_tokens_len(t);
    lemma_parse_tokens(ts, 0, t);
    let fulllen = ts.len() as int;
    assert(parse_term(ts, 0) == parse_term_rest(ts, t, fulllen));
    assert(parse_term_rest(ts, t, fulllen) == Ok::<(ExprV, int), Halt>((t, fulllen)));
    assert(parse_union(ts, 0) == parse_union_rest(ts, t, fulllen));
    assert(parse_union_rest(ts, t, fulllen) == Ok::<(ExprV, int), Halt>((t, fulllen)));
    assert(first_err(lex_spec(bigr)) is None);
    assert(parse_spec(bigr) == Ok::<ExprV, ParseErrV>(t));
}

} // verus!
