//! Lexer for the DRQL language.
//!
//! One query string is turned into position-tagged tokens. Whitespace is
//! insignificant; matching prefers role mentions over user mentions over
//! quoted strings over bare words over bare integers over single-character
//! operators, and an unrecognized character becomes an error token without
//! stopping the stream. `@everyone` and `@here` lex to the same token as the
//! bare words `everyone` and `here`.
//!
//! Spans and error offsets count characters, not bytes; for ASCII queries
//! the two coincide.

use vstd::prelude::*;
use vstd::string::*;

use crate::digits::is_digit;

verus! {

/// Any value attached to a span within source text.
pub type Spanned<Tok, Loc, Error> = Result<(Loc, Tok, Loc), Error>;

/// An error when lexing or parsing a query.
#[derive(Debug, PartialEq, Eq)]
pub enum LexicalError {
    /// The generic error; narrowed to [`LexicalError::UnknownToken`] before
    /// it leaves the lexer.
    NoMatchingRule,
    /// A token that the lexer doesn't recognize, with its position.
    UnknownToken((usize, char)),
    /// An unterminated string literal, at the offset of its opening quote.
    UnterminatedStringLiteral(usize),
    /// An integer too large for an ID.
    MalformedInteger,
}

/// The list of possible tokens in DRQL.
#[derive(Debug, Clone, PartialEq, Eq)]
pub enum Tok {
    /// The token `+`.
    Plus,
    /// The token `-`.
    Minus,
    /// The token `|`.
    Pipe,
    /// The token `&`.
    Ampersand,
    /// The token `(`.
    LeftParen,
    /// The token `)`.
    RightParen,
    /// String literals: `"abc def"`, `abc`, `everyone`, `@here`, etc.
    StringLiteral(String),
    /// ID literals: a bare run of digits.
    IDLiteral(String),
    /// User mentions: `<@123>` or `<@!123>`, with the digits as payload.
    UserMention(String),
    /// Role mentions: `<@&123>`, with the digits as payload.
    RoleMention(String),
}

/// The mathematical shape of a token: payloads as character sequences.
pub enum TokV {
    /// The token `+`.
    Plus,
    /// The token `-`.
    Minus,
    /// The token `|`.
    Pipe,
    /// The token `&`.
    Ampersand,
    /// The token `(`.
    LeftParen,
    /// The token `)`.
    RightParen,
    /// A string literal.
    StringLiteral(Seq<char>),
    /// An ID literal.
    IDLiteral(Seq<char>),
    /// A user mention.
    UserMention(Seq<char>),
    /// A role mention.
    RoleMention(Seq<char>),
}

/// The mathematical shape of `t`.
pub open spec fn tok_model(t: Tok) -> TokV {
    match t {
        Tok::Plus => TokV::Plus,
        Tok::Minus => TokV::Minus,
        Tok::Pipe => TokV::Pipe,
        Tok::Ampersand => TokV::Ampersand,
        Tok::LeftParen => TokV::LeftParen,
        Tok::RightParen => TokV::RightParen,
        Tok::StringLiteral(s) => TokV::StringLiteral(s@),
        Tok::IDLiteral(s) => TokV::IDLiteral(s@),
        Tok::UserMention(s) => TokV::UserMention(s@),
        Tok::RoleMention(s) => TokV::RoleMention(s@),
    }
}

/// The mathematical shape of one lexed item.
pub open spec fn spanned_model(r: Spanned<Tok, usize, LexicalError>) -> Result<
    (int, TokV, int),
    LexicalError,
> {
    match r {
        Ok((a, t, b)) => Ok((a as int, tok_model(t), b as int)),
        Err(e) => Err(e),
    }
}

/// Whitespace that the lexer skips.
pub open spec fn is_ws(c: char) -> bool {
    c == ' ' || c == '\t' || c == '\r' || c == '\n' || c == '\u{c}'
}

/// A character that may start a bare word.
pub open spec fn is_word_start(c: char) -> bool {
    ('a' <= c && c <= 'z') || ('A' <= c && c <= 'Z') || c == '_'
}

/// A character that may continue a bare word.
pub open spec fn is_word_char(c: char) -> bool {
    is_word_start(c) || is_digit(c)
}

/// The end of the run of word characters starting at `j`.
pub open spec fn word_end(s: Seq<char>, j: int) -> int
    decreases s.len() - j,
{
    if 0 <= j < s.len() && is_word_char(s[j]) {
        word_end(s, j + 1)
    } else {
        j
    }
}

/// The end of the run of digits starting at `j`.
pub open spec fn digits_end(s: Seq<char>, j: int) -> int
    decreases s.len() - j,
{
    if 0 <= j < s.len() && is_digit(s[j]) {
        digits_end(s, j + 1)
    } else {
        j
    }
}

/// Where a quoted string's body ends: at a closing quote, or nowhere.
pub enum StrScan {
    /// The closing quote sits at this index.
    Closed(int),
    /// No closing quote; the candidate match ends at this index.
    Open(int),
}

/// Scan a quoted string's body from `j`: a backslash escapes the next
/// character; an unescaped quote closes the literal; reaching the end of
/// input (or a trailing backslash) leaves it open.
pub open spec fn string_scan(s: Seq<char>, j: int) -> StrScan
    decreases s.len() - j,
{
    if j < 0 || j >= s.len() {
        StrScan::Open(j)
    } else if s[j] == '"' {
        StrScan::Closed(j)
    } else if s[j] == '\\' {
        if j + 1 < s.len() {
            string_scan(s, j + 2)
        } else {
            StrScan::Open(j)
        }
    } else {
        string_scan(s, j + 1)
    }
}

/// The characters of `@everyone`.
pub open spec fn at_everyone_seq() -> Seq<char> {
    seq!['@', 'e', 'v', 'e', 'r', 'y', 'o', 'n', 'e']
}

/// The characters of `everyone`.
pub open spec fn everyone_seq() -> Seq<char> {
    seq!['e', 'v', 'e', 'r', 'y', 'o', 'n', 'e']
}

/// The characters of `@here`.
pub open spec fn at_here_seq() -> Seq<char> {
    seq!['@', 'h', 'e', 'r', 'e']
}

/// The characters of `here`.
pub open spec fn here_seq() -> Seq<char> {
    seq!['h', 'e', 'r', 'e']
}

/// An unknown-token error at `p`, consuming one character.
pub open spec fn unknown_at(s: Seq<char>, p: int) -> (Result<(int, TokV, int), LexicalError>, int) {
    (Err(LexicalError::UnknownToken((p as usize, s[p]))), p + 1)
}

/// The token starting at `<`: a role mention `<@&DIGITS>`, else a user
/// mention `<@DIGITS>` or `<@!DIGITS>`, else an unknown token.
pub open spec fn mention_tok(s: Seq<char>, p: int) -> (Result<
    (int, TokV, int),
    LexicalError,
>, int) {
    if p + 1 < s.len() && s[p + 1] == '@' {
        if p + 2 < s.len() && s[p + 2] == '&' {
            let e = digits_end(s, p + 3);
            if e > p + 3 && e < s.len() && s[e] == '>' {
                (Ok((p, TokV::RoleMention(s.subrange(p + 3, e)), e + 1)), e + 1)
            } else {
                unknown_at(s, p)
            }
        } else {
            let q = if p + 2 < s.len() && s[p + 2] == '!' {
                p + 3
            } else {
                p + 2
            };
            let e = digits_end(s, q);
            if e > q && e < s.len() && s[e] == '>' {
                (Ok((p, TokV::UserMention(s.subrange(q, e)), e + 1)), e + 1)
            } else {
                unknown_at(s, p)
            }
        }
    } else {
        unknown_at(s, p)
    }
}

/// The token starting at a quote: the literal's raw body (escapes kept), or
/// an unterminated-string error that consumes the candidate match.
pub open spec fn string_tok(s: Seq<char>, p: int) -> (Result<(int, TokV, int), LexicalError>, int) {
    match string_scan(s, p + 1) {
        StrScan::Closed(k) => (Ok((p, TokV::StringLiteral(s.subrange(p + 1, k)), k + 1)), k + 1),
        StrScan::Open(r) => (Err(LexicalError::UnterminatedStringLiteral(p as usize)), r),
    }
}

/// The token starting at `@`: the reserved mentions `@everyone` and `@here`
/// lex like the bare words, anything else is unknown.
pub open spec fn at_tok(s: Seq<char>, p: int) -> (Result<(int, TokV, int), LexicalError>, int) {
    if p + 9 <= s.len() && s.subrange(p, p + 9) == at_everyone_seq() {
        (Ok((p, TokV::StringLiteral(everyone_seq()), p + 9)), p + 9)
    } else if p + 5 <= s.len() && s.subrange(p, p + 5) == at_here_seq() {
        (Ok((p, TokV::StringLiteral(here_seq()), p + 5)), p + 5)
    } else {
        unknown_at(s, p)
    }
}

/// The token at the non-whitespace position `p`, and where lexing resumes.
pub open spec fn next_tok(s: Seq<char>, p: int) -> (Result<(int, TokV, int), LexicalError>, int) {
    let c = s[p];
    if c == '+' {
        (Ok((p, TokV::Plus, p + 1)), p + 1)
    } else if c == '-' {
        (Ok((p, TokV::Minus, p + 1)), p + 1)
    } else if c == '|' {
        (Ok((p, TokV::Pipe, p + 1)), p + 1)
    } else if c == '&' {
        (Ok((p, TokV::Ampersand, p + 1)), p + 1)
    } else if c == '(' {
        (Ok((p, TokV::LeftParen, p + 1)), p + 1)
    } else if c == ')' {
        (Ok((p, TokV::RightParen, p + 1)), p + 1)
    } else if c == '<' {
        mention_tok(s, p)
    } else if c == '"' {
        string_tok(s, p)
    } else if c == '@' {
        at_tok(s, p)
    } else if is_word_start(c) {
        let e = word_end(s, p + 1);
        (Ok((p, TokV::StringLiteral(s.subrange(p, e)), e)), e)
    } else if is_digit(c) {
        let e = digits_end(s, p + 1);
        (Ok((p, TokV::IDLiteral(s.subrange(p, e)), e)), e)
    } else {
        unknown_at(s, p)
    }
}

/// The token stream of `s` from position `i` on: whitespace skipped, one
/// item per token or error, in order.
pub open spec fn lex_from(s: Seq<char>, i: int) -> Seq<Result<(int, TokV, int), LexicalError>>
    decreases s.len() - i,
{
    if i < 0 || i >= s.len() {
        Seq::empty()
    } else if is_ws(s[i]) {
        lex_from(s, i + 1)
    } else {
        let r0 = next_tok(s, i);
        let nxt0 = if r0.1 > i {
            r0.1
        } else {
            i + 1
        };
        let nxt = if nxt0 > s.len() {
            s.len() as int
        } else {
            nxt0
        };
        seq![r0.0] + lex_from(s, nxt)
    }
}

/// The whole token stream of `s`.
pub open spec fn lex_spec(s: Seq<char>) -> Seq<Result<(int, TokV, int), LexicalError>> {
    lex_from(s, 0)
}

/// Mention payloads are digit strings; other tokens are unconstrained.
pub open spec fn tok_digits(t: TokV) -> bool {
    match t {
        TokV::UserMention(sq) => crate::digits::all_digits(sq),
        TokV::RoleMention(sq) => crate::digits::all_digits(sq),
        _ => true,
    }
}

/// A lexed item's token, if any, satisfies [`tok_digits`].
pub open spec fn item_digits(r: Result<(int, TokV, int), LexicalError>) -> bool {
    match r {
        Ok(t) => tok_digits(t.1),
        Err(_) => true,
    }
}

/// Every character of a digit run is a digit.
pub proof fn lemma_digits_end_digits(s: Seq<char>, j: int)
    requires
        0 <= j,
    ensures
        forall|m: int| j <= m < digits_end(s, j) ==> is_digit(#[trigger] s[m]),
    decreases s.len() - j,
{
    if 0 <= j < s.len() && is_digit(s[j]) {
        lemma_digits_end_digits(s, j + 1);
    }
}

/// The digit run starting at `a`, taken as a subrange, is all digits.
proof fn lemma_digit_run_subrange(s: Seq<char>, a: int)
    requires
        0 <= a <= s.len(),
    ensures
        crate::digits::all_digits(s.subrange(a, digits_end(s, a))),
{
    lemma_digits_end_digits(s, a);
    lemma_digits_end_bounds(s, a);
    let sub = s.subrange(a, digits_end(s, a));
    assert forall|m: int| 0 <= m < sub.len() implies is_digit(#[trigger] sub[m]) by {
        assert(sub[m] == s[a + m]);
    }
}

/// Every mention in the token stream carries a digit-string payload.
pub proof fn lemma_lex_from_digits(s: Seq<char>, i: int)
    ensures
        forall|k: int|
            0 <= k < lex_from(s, i).len() ==> item_digits(#[trigger] lex_from(s, i)[k]),
    decreases s.len() - i,
{
    if i < 0 || i >= s.len() {
        assert(lex_from(s, i).len() == 0);
    } else if is_ws(s[i]) {
        lemma_lex_from_digits(s, i + 1);
        assert forall|k: int| 0 <= k < lex_from(s, i).len() implies item_digits(
            #[trigger] lex_from(s, i)[k],
        ) by {
            assert(lex_from(s, i)[k] == lex_from(s, i + 1)[k]);
        }
    } else {
        let r0 = next_tok(s, i);
        let nxt0 = if r0.1 > i {
            r0.1
        } else {
            i + 1
        };
        let nxt = if nxt0 > s.len() {
            s.len() as int
        } else {
            nxt0
        };
        lemma_lex_from_digits(s, nxt);
        assert(item_digits(r0.0)) by {
            if i + 2 <= s.len() {
                lemma_digit_run_subrange(s, i + 2);
            }
            if i + 3 <= s.len() {
                lemma_digit_run_subrange(s, i + 3);
            }
        }
        assert forall|k: int| 0 <= k < lex_from(s, i).len() implies item_digits(
            #[trigger] lex_from(s, i)[k],
        ) by {
            if k == 0 {
                assert(lex_from(s, i)[0] == r0.0);
            } else {
                assert(lex_from(s, i)[k] == lex_from(s, nxt)[k - 1]);
            }
        }
    }
}

/// The end of a digit run lies between its start and the end of input.
pub proof fn lemma_digits_end_bounds(s: Seq<char>, j: int)
    requires
        0 <= j <= s.len(),
    ensures
        j <= digits_end(s, j) <= s.len(),
    decreases s.len() - j,
{
    if j < s.len() && is_digit(s[j]) {
        lemma_digits_end_bounds(s, j + 1);
    }
}

/// The end of a word run lies between its start and the end of input.
pub proof fn lemma_word_end_bounds(s: Seq<char>, j: int)
    requires
        0 <= j <= s.len(),
    ensures
        j <= word_end(s, j) <= s.len(),
    decreases s.len() - j,
{
    if j < s.len() && is_word_char(s[j]) {
        lemma_word_end_bounds(s, j + 1);
    }
}

/// A string scan ends inside the text, at or after where it started.
pub proof fn lemma_string_scan_bounds(s: Seq<char>, j: int)
    requires
        0 <= j <= s.len(),
    ensures
        match string_scan(s, j) {
            StrScan::Closed(k) => j <= k < s.len() && s[k] == '"',
            StrScan::Open(r) => j <= r <= s.len(),
        },
    decreases s.len() - j,
{
    if j < s.len() && s[j] != '"' {
        if s[j] == '\\' {
            if j + 1 < s.len() {
                lemma_string_scan_bounds(s, j + 2);
            }
        } else {
            lemma_string_scan_bounds(s, j + 1);
        }
    }
}

/// The end of the run of digits starting at `start`.
fn digits_end_exec(input: &str, start: usize) -> (r: usize)
    requires
        start <= input@.len(),
    ensures
        r as int == digits_end(input@, start as int),
        start <= r <= input@.len(),
{
    let n = input.unicode_len();
    let mut j = start;
    while j < n
        invariant
            n == input@.len(),
            start <= j <= n,
            digits_end(input@, start as int) == digits_end(input@, j as int),
        decreases n - j,
    {
        let c = input.get_char(j);
        if !('0' <= c && c <= '9') {
            return j;
        }
        j = j + 1;
    }
    j
}

/// The end of the run of word characters starting at `start`.
fn word_end_exec(input: &str, start: usize) -> (r: usize)
    requires
        start <= input@.len(),
    ensures
        r as int == word_end(input@, start as int),
        start <= r <= input@.len(),
{
    let n = input.unicode_len();
    let mut j = start;
    while j < n
        invariant
            n == input@.len(),
            start <= j <= n,
            word_end(input@, start as int) == word_end(input@, j as int),
        decreases n - j,
    {
        let c = input.get_char(j);
        let ok = ('a' <= c && c <= 'z') || ('A' <= c && c <= 'Z') || c == '_' || ('0' <= c && c
            <= '9');
        if !ok {
            return j;
        }
        j = j + 1;
    }
    j
}

/// Scan a quoted string's body from `start`, following the rules of
/// [`string_scan`].
fn string_scan_exec(input: &str, start: usize) -> (r: (bool, usize))
    requires
        start <= input@.len(),
    ensures
        match string_scan(input@, start as int) {
            StrScan::Closed(k) => r.0 && r.1 as int == k,
            StrScan::Open(e) => !r.0 && r.1 as int == e,
        },
{
    let n = input.unicode_len();
    let mut j = start;
    while j < n
        invariant
            n == input@.len(),
            start <= j <= n,
            string_scan(input@, start as int) == string_scan(input@, j as int),
        decreases n - j,
    {
        let c = input.get_char(j);
        if c == '"' {
            return (true, j);
        }
        if c == '\\' {
            if j + 1 < n {
                j = j + 2;
            } else {
                return (false, j);
            }
        } else {
            j = j + 1;
        }
    }
    (false, j)
}

/// The position of the next non-whitespace character at or after `start`.
fn skip_ws_exec(input: &str, start: usize) -> (r: usize)
    requires
        start <= input@.len(),
    ensures
        start <= r <= input@.len(),
        lex_from(input@, start as int) == lex_from(input@, r as int),
        r < input@.len() ==> !is_ws(input@[r as int]),
{
    let n = input.unicode_len();
    let mut j = start;
    while j < n
        invariant
            n == input@.len(),
            start <= j <= n,
            lex_from(input@, start as int) == lex_from(input@, j as int),
        decreases n - j,
    {
        let c = input.get_char(j);
        if !(c == ' ' || c == '\t' || c == '\r' || c == '\n' || c == '\u{c}') {
            return j;
        }
        j = j + 1;
    }
    j
}

/// A lexer for the Discord Role Query Language.
pub struct DrqlLexer<'input> {
    /// The query text.
    input: &'input str,
    /// The current position, as a character offset.
    pos: usize,
    /// The length of the text in characters.
    len: usize,
}

impl<'input> DrqlLexer<'input> {
    /// The text being lexed.
    pub closed spec fn text(&self) -> Seq<char> {
        self.input@
    }

    /// The current position.
    pub closed spec fn position(&self) -> int {
        self.pos as int
    }

    /// The lexer's cached length is right and its position in range.
    pub closed spec fn wf(&self) -> bool {
        self.len == self.input@.len() && self.pos <= self.len
    }

    /// A well-formed lexer's position lies within its text.
    pub proof fn lemma_position_bounds(&self)
        requires
            self.wf(),
        ensures
            0 <= self.position() <= self.text().len(),
    {
    }

    /// Create a new lexer over the given input.
    pub fn new(input: &'input str) -> (r: Self)
        ensures
            r.wf(),
            r.text() == input@,
            r.position() == 0,
    {
        let len = input.unicode_len();
        DrqlLexer { input, pos: 0, len }
    }

    /// The next token or error, or `None` at the end of the text.
    ///
    /// The items this hands out, in order, are exactly `lex_spec` of the
    /// text.
    pub fn next(&mut self) -> (r: Option<Spanned<Tok, usize, LexicalError>>)
        requires
            old(self).wf(),
        ensures
            final(self).wf(),
            final(self).text() == old(self).text(),
            match r {
                None => {
                    &&& lex_from(old(self).text(), old(self).position()) == Seq::<
                        Result<(int, TokV, int), LexicalError>,
                    >::empty()
                    &&& lex_from(final(self).text(), final(self).position()) == Seq::<
                        Result<(int, TokV, int), LexicalError>,
                    >::empty()
                    &&& final(self).position() >= old(self).position()
                },
                Some(item) => {
                    &&& lex_from(old(self).text(), old(self).position()) == seq![
                        spanned_model(item),
                    ] + lex_from(final(self).text(), final(self).position())
                    &&& final(self).position() > old(self).position()
                },
            },
    {
        let ghost s = self.input@;
        // Skip insignificant whitespace.
        self.pos = skip_ws_exec(self.input, self.pos);
        if self.pos >= self.len {
            return None;
        }
        let p = self.pos;
        let n = self.len;
        let c = self.input.get_char(p);
        proof {
            assert(!is_ws(s[p as int]));
        }
        if c == '+' {
            self.pos = p + 1;
            Some(Ok((p, Tok::Plus, p + 1)))
        } else if c == '-' {
            self.pos = p + 1;
            Some(Ok((p, Tok::Minus, p + 1)))
        } else if c == '|' {
            self.pos = p + 1;
            Some(Ok((p, Tok::Pipe, p + 1)))
        } else if c == '&' {
            self.pos = p + 1;
            Some(Ok((p, Tok::Ampersand, p + 1)))
        } else if c == '(' {
            self.pos = p + 1;
            Some(Ok((p, Tok::LeftParen, p + 1)))
        } else if c == ')' {
            self.pos = p + 1;
            Some(Ok((p, Tok::RightParen, p + 1)))
        } else if c == '<' {
            if p + 1 < n && self.input.get_char(p + 1) == '@' {
                if p + 2 < n && self.input.get_char(p + 2) == '&' {
                    let e = digits_end_exec(self.input, p + 3);
                    if e > p + 3 && e < n && self.input.get_char(e) == '>' {
                        let payload = self.input.substring_char(p + 3, e).to_owned();
                        self.pos = e + 1;
                        Some(Ok((p, Tok::RoleMention(payload), e + 1)))
                    } else {
                        self.pos = p + 1;
                        Some(Err(LexicalError::UnknownToken((p, c))))
                    }
                } else {
                    let q = if p + 2 < n && self.input.get_char(p + 2) == '!' {
                        p + 3
                    } else {
                        p + 2
                    };
                    let e = digits_end_exec(self.input, q);
                    if e > q && e < n && self.input.get_char(e) == '>' {
                        let payload = self.input.substring_char(q, e).to_owned();
                        self.pos = e + 1;
                        Some(Ok((p, Tok::UserMention(payload), e + 1)))
                    } else {
                        self.pos = p + 1;
                        Some(Err(LexicalError::UnknownToken((p, c))))
                    }
                }
            } else {
                self.pos = p + 1;
                Some(Err(LexicalError::UnknownToken((p, c))))
            }
        } else if c == '"' {
            let (closed, at) = string_scan_exec(self.input, p + 1);
            proof {
                lemma_string_scan_bounds(s, p as int + 1);
            }
            if closed {
                let payload = self.input.substring_char(p + 1, at).to_owned();
                self.pos = at + 1;
                Some(Ok((p, Tok::StringLiteral(payload), at + 1)))
            } else {
                self.pos = at;
                Some(Err(LexicalError::UnterminatedStringLiteral(p)))
            }
        } else if c == '@' {
            if n - p >= 9 && self.input.get_char(p + 1) == 'e' && self.input.get_char(p + 2) == 'v'
                && self.input.get_char(p + 3) == 'e' && self.input.get_char(p + 4) == 'r'
                && self.input.get_char(p + 5) == 'y' && self.input.get_char(p + 6) == 'o'
                && self.input.get_char(p + 7) == 'n' && self.input.get_char(p + 8) == 'e' {
                proof {
                    assert(s.subrange(p as int, p as int + 9) =~= at_everyone_seq());
                    reveal_strlit("everyone");
                    assert("everyone"@ =~= everyone_seq());
                }
                self.pos = p + 9;
                Some(Ok((p, Tok::StringLiteral(String::from_str("everyone")), p + 9)))
            } else if n - p >= 5 && self.input.get_char(p + 1) == 'h' && self.input.get_char(p + 2)
                == 'e' && self.input.get_char(p + 3) == 'r' && self.input.get_char(p + 4) == 'e' {
                proof {
                    assert(s.subrange(p as int, p as int + 5) =~= at_here_seq());
                    assert(s.subrange(p as int, p as int + 9) != at_everyone_seq() || p + 9
                        > s.len()) by {
                        if p + 9 <= s.len() {
                            assert(s.subrange(p as int, p as int + 9)[1] == s[p as int + 1]);
                        }
                    }
                    reveal_strlit("here");
                    assert("here"@ =~= here_seq());
                }
                self.pos = p + 5;
                Some(Ok((p, Tok::StringLiteral(String::from_str("here")), p + 5)))
            } else {
                proof {
                    assert(p + 9 <= s.len() ==> s.subrange(p as int, p as int + 9)
                        != at_everyone_seq()) by {
                        if p + 9 <= s.len() && s.subrange(p as int, p as int + 9)
                            == at_everyone_seq() {
                            assert(s.subrange(p as int, p as int + 9)[1] == s[p as int + 1]);
                            assert(s.subrange(p as int, p as int + 9)[2] == s[p as int + 2]);
                            assert(s.subrange(p as int, p as int + 9)[3] == s[p as int + 3]);
                            assert(s.subrange(p as int, p as int + 9)[4] == s[p as int + 4]);
                            assert(s.subrange(p as int, p as int + 9)[5] == s[p as int + 5]);
                            assert(s.subrange(p as int, p as int + 9)[6] == s[p as int + 6]);
                            assert(s.subrange(p as int, p as int + 9)[7] == s[p as int + 7]);
                            assert(s.subrange(p as int, p as int + 9)[8] == s[p as int + 8]);
                        }
                    }
                    assert(p + 5 <= s.len() ==> s.subrange(p as int, p as int + 5)
                        != at_here_seq()) by {
                        if p + 5 <= s.len() && s.subrange(p as int, p as int + 5) == at_here_seq() {
                            assert(s.subrange(p as int, p as int + 5)[1] == s[p as int + 1]);
                            assert(s.subrange(p as int, p as int + 5)[2] == s[p as int + 2]);
                            assert(s.subrange(p as int, p as int + 5)[3] == s[p as int + 3]);
                            assert(s.subrange(p as int, p as int + 5)[4] == s[p as int + 4]);
                        }
                    }
                }
                self.pos = p + 1;
                Some(Err(LexicalError::UnknownToken((p, c))))
            }
        } else if ('a' <= c && c <= 'z') || ('A' <= c && c <= 'Z') || c == '_' {
            let e = word_end_exec(self.input, p + 1);
            let payload = self.input.substring_char(p, e).to_owned();
            self.pos = e;
            Some(Ok((p, Tok::StringLiteral(payload), e)))
        } else if '0' <= c && c <= '9' {
            let e = digits_end_exec(self.input, p + 1);
            let payload = self.input.substring_char(p, e).to_owned();
            self.pos = e;
            Some(Ok((p, Tok::IDLiteral(payload), e)))
        } else {
            self.pos = p + 1;
            Some(Err(LexicalError::UnknownToken((p, c))))
        }
    }
}

/// The surface text a token prints as (string literals print quoted).
pub open spec fn tok_render(t: TokV) -> Seq<char> {
    match t {
        TokV::Plus => seq!['+'],
        TokV::Minus => seq!['-'],
        TokV::Pipe => seq!['|'],
        TokV::Ampersand => seq!['&'],
        TokV::LeftParen => seq!['('],
        TokV::RightParen => seq![')'],
        TokV::StringLiteral(s) => seq!['"'] + s + seq!['"'],
        TokV::IDLiteral(s) => s,
        TokV::UserMention(s) => seq!['<', '@'] + s + seq!['>'],
        TokV::RoleMention(s) => seq!['<', '@', '&'] + s + seq!['>'],
    }
}

/// The message a lexical error prints as.
pub open spec fn lexical_error_message(e: LexicalError) -> Seq<char> {
    match e {
        LexicalError::NoMatchingRule => "No matching rule."@,
        LexicalError::UnknownToken((index, ch)) => "Unknown token at index "@ + crate::digits::dec_digits(
            index as int,
        ) + ": `"@ + seq![ch] + "`"@,
        LexicalError::UnterminatedStringLiteral(index) => "Unterminated string literal at index "@
            + crate::digits::dec_digits(index as int),
        LexicalError::MalformedInteger => "Malformed integer."@,
    }
}

/// Relies on `String::push`: appends one character.
#[verifier::external_body]
fn push_char(s: &mut String, c: char)
    ensures
        final(s)@ == old(s)@.push(c),
{
    s.push(c);
}

impl Tok {
    /// Render this token as surface text.
    pub fn render(&self) -> (r: String)
        ensures
            r@ == tok_render(tok_model(*self)),
    {
        proof {
            reveal_strlit("+");
            reveal_strlit("-");
            reveal_strlit("|");
            reveal_strlit("&");
            reveal_strlit("(");
            reveal_strlit(")");
            reveal_strlit("\"");
            reveal_strlit("<@");
            reveal_strlit("<@&");
            reveal_strlit(">");
        }
        match self {
            Tok::Plus => {
                let r = String::from_str("+");
                proof {
                    assert(r@ =~= tok_render(tok_model(*self)));
                }
                r
            },
            Tok::Minus => {
                let r = String::from_str("-");
                proof {
                    assert(r@ =~= tok_render(tok_model(*self)));
                }
                r
            },
            Tok::Pipe => {
                let r = String::from_str("|");
                proof {
                    assert(r@ =~= tok_render(tok_model(*self)));
                }
                r
            },
            Tok::Ampersand => {
                let r = String::from_str("&");
                proof {
                    assert(r@ =~= tok_render(tok_model(*self)));
                }
                r
            },
            Tok::LeftParen => {
                let r = String::from_str("(");
                proof {
                    assert(r@ =~= tok_render(tok_model(*self)));
                }
                r
            },
            Tok::RightParen => {
                let r = String::from_str(")");
                proof {
                    assert(r@ =~= tok_render(tok_model(*self)));
                }
                r
            },
            Tok::StringLiteral(sq) => {
                let mut r = String::from_str("\"");
                r.append(sq.as_str());
                r.append("\"");
                proof {
                    assert(r@ =~= tok_render(tok_model(*self)));
                }
                r
            },
            Tok::IDLiteral(sq) => sq.clone(),
            Tok::UserMention(sq) => {
                let mut r = String::from_str("<@");
                r.append(sq.as_str());
                r.append(">");
                proof {
                    assert(r@ =~= tok_render(tok_model(*self)));
                }
                r
            },
            Tok::RoleMention(sq) => {
                let mut r = String::from_str("<@&");
                r.append(sq.as_str());
                r.append(">");
                proof {
                    assert(r@ =~= tok_render(tok_model(*self)));
                }
                r
            },
        }
    }
}

impl LexicalError {
    /// The human-readable message for this error.
    pub fn message(&self) -> (r: String)
        ensures
            r@ == lexical_error_message(*self),
    {
        match self {
            LexicalError::NoMatchingRule => String::from_str("No matching rule."),
            LexicalError::UnknownToken((index, ch)) => {
                let mut r = String::from_str("Unknown token at index ");
                r.append(crate::digits::u64_to_dec(*index as u64).as_str());
                r.append(": `");
                push_char(&mut r, *ch);
                r.append("`");
                proof {
                    assert(r@ =~= lexical_error_message(*self));
                }
                r
            },
            LexicalError::UnterminatedStringLiteral(index) => {
                let mut r = String::from_str("Unterminated string literal at index ");
                r.append(crate::digits::u64_to_dec(*index as u64).as_str());
                proof {
                    assert(r@ =~= lexical_error_message(*self));
                }
                r
            },
            LexicalError::MalformedInteger => String::from_str("Malformed integer."),
        }
    }
}

} // verus!
