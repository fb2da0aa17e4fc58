//! DRQL's abstract syntax tree.

use vstd::prelude::*;
use vstd::string::*;

use crate::digits::dec_digits;
use crate::digits::u64_to_dec;

verus! {

/// Represents a single DRQL query, or a view into that query.
#[derive(Debug, PartialEq)]
pub enum Expr {
    /// The union of two expressions, `a + b` or `a | b`.
    Union(Box<Expr>, Box<Expr>),
    /// The intersection of two expressions, `a & b`.
    Intersection(Box<Expr>, Box<Expr>),
    /// The difference of two expressions, `a - b`.
    Difference(Box<Expr>, Box<Expr>),
    /// The name of a role itself, like `everyone`.
    StringLiteral(String),
    /// Some ID that could belong to a user or a role.
    UnknownID(String),
    /// An ID known to belong to a user, from a direct user mention.
    UserID(u64),
    /// An ID known to belong to a role, from a direct role mention.
    RoleID(u64),
}

/// The mathematical shape of an expression: the same tree with string
/// payloads abstracted to character sequences.
pub enum ExprV {
    /// The union of two expressions.
    Union(Box<ExprV>, Box<ExprV>),
    /// The intersection of two expressions.
    Intersection(Box<ExprV>, Box<ExprV>),
    /// The difference of two expressions.
    Difference(Box<ExprV>, Box<ExprV>),
    /// A name.
    StringLiteral(Seq<char>),
    /// An undetermined ID, kept as its digit string.
    UnknownID(Seq<char>),
    /// A user ID.
    UserID(u64),
    /// A role ID.
    RoleID(u64),
}

/// The mathematical shape of `e`.
pub open spec fn expr_model(e: Expr) -> ExprV
    decreases e,
{
    match e {
        Expr::Union(l, r) => ExprV::Union(Box::new(expr_model(*l)), Box::new(expr_model(*r))),
        Expr::Intersection(l, r) => ExprV::Intersection(
            Box::new(expr_model(*l)),
            Box::new(expr_model(*r)),
        ),
        Expr::Difference(l, r) => ExprV::Difference(
            Box::new(expr_model(*l)),
            Box::new(expr_model(*r)),
        ),
        Expr::StringLiteral(s) => ExprV::StringLiteral(s@),
        Expr::UnknownID(s) => ExprV::UnknownID(s@),
        Expr::UserID(id) => ExprV::UserID(id),
        Expr::RoleID(id) => ExprV::RoleID(id),
    }
}

/// `c` may appear in an unquoted rendered name.
pub open spec fn is_bare_char(c: char) -> bool {
    ('a' <= c && c <= 'z') || ('A' <= c && c <= 'Z') || ('0' <= c && c <= '9') || c == '_'
}

/// A name of only ASCII alphanumerics and underscores renders unquoted.
pub open spec fn renders_bare(s: Seq<char>) -> bool {
    forall|i: int| 0 <= i < s.len() ==> is_bare_char(#[trigger] s[i])
}

/// The canonical surface syntax of an expression: operators are
/// parenthesized, unions print as `|`, names outside `[A-Za-z0-9_]*` are
/// quoted.
pub open spec fn render_spec(e: ExprV) -> Seq<char>
    decreases e,
{
    match e {
        ExprV::Union(l, r) => seq!['('] + render_spec(*l) + seq![' ', '|', ' '] + render_spec(*r)
            + seq![')'],
        ExprV::Intersection(l, r) => seq!['('] + render_spec(*l) + seq![' ', '&', ' ']
            + render_spec(*r) + seq![')'],
        ExprV::Difference(l, r) => seq!['('] + render_spec(*l) + seq![' ', '-', ' ']
            + render_spec(*r) + seq![')'],
        ExprV::StringLiteral(s) => if renders_bare(s) {
            s
        } else {
            seq!['"'] + s + seq!['"']
        },
        ExprV::UnknownID(s) => s,
        ExprV::UserID(id) => seq!['<', '@'] + dec_digits(id as int) + seq!['>'],
        ExprV::RoleID(id) => seq!['<', '@', '&'] + dec_digits(id as int) + seq!['>'],
    }
}

/// Whether every character of `s` may render unquoted.
fn check_bare(s: &String) -> (r: bool)
    ensures
        r == renders_bare(s@),
{
    let n = s.as_str().unicode_len();
    let mut i: usize = 0;
    while i < n
        invariant
            n == s@.len(),
            0 <= i <= n,
            forall|k: int| 0 <= k < i ==> is_bare_char(#[trigger] s@[k]),
        decreases n - i,
    {
        let c = s.as_str().get_char(i);
        let ok = ('a' <= c && c <= 'z') || ('A' <= c && c <= 'Z') || ('0' <= c && c <= '9') || c
            == '_';
        if !ok {
            return false;
        }
        i = i + 1;
    }
    true
}

impl Expr {
    /// Render this expression to its canonical surface syntax.
    pub fn render(&self) -> (r: String)
        ensures
            r@ == render_spec(expr_model(*self)),
        decreases self,
    {
        proof {
            reveal_strlit("(");
            reveal_strlit(")");
            reveal_strlit(" | ");
            reveal_strlit(" & ");
            reveal_strlit(" - ");
            reveal_strlit("\"");
            reveal_strlit("<@");
            reveal_strlit("<@&");
            reveal_strlit(">");
        }
        match self {
            Expr::Union(l, r) => {
                let mut s = String::from_str("(");
                s.append(l.render().as_str());
                s.append(" | ");
                s.append(r.render().as_str());
                s.append(")");
                proof {
                    assert(s@ =~= render_spec(expr_model(*self)));
                }
                s
            },
            Expr::Intersection(l, r) => {
                let mut s = String::from_str("(");
                s.append(l.render().as_str());
                s.append(" & ");
                s.append(r.render().as_str());
                s.append(")");
                proof {
                    assert(s@ =~= render_spec(expr_model(*self)));
                }
                s
            },
            Expr::Difference(l, r) => {
                let mut s = String::from_str("(");
                s.append(l.render().as_str());
                s.append(" - ");
                s.append(r.render().as_str());
                s.append(")");
                proof {
                    assert(s@ =~= render_spec(expr_model(*self)));
                }
                s
            },
            Expr::StringLiteral(contents) => {
                if check_bare(contents) {
                    contents.clone()
                } else {
                    let mut s = String::from_str("\"");
                    s.append(contents.as_str());
                    s.append("\"");
                    proof {
                        assert(s@ =~= render_spec(expr_model(*self)));
                    }
                    s
                }
            },
            Expr::UnknownID(id) => id.clone(),
            Expr::UserID(id) => {
                let mut s = String::from_str("<@");
                s.append(u64_to_dec(*id).as_str());
                s.append(">");
                proof {
                    assert(s@ =~= render_spec(expr_model(*self)));
                }
                s
            },
            Expr::RoleID(id) => {
                let mut s = String::from_str("<@&");
                s.append(u64_to_dec(*id).as_str());
                s.append(">");
                proof {
                    assert(s@ =~= render_spec(expr_model(*self)));
                }
                s
            },
        }
    }
}

} // verus!
