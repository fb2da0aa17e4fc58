use intersection::drql::lexer::DrqlLexer;
use intersection::drql::lexer::LexicalError;
use intersection::drql::lexer::Spanned;
use intersection::drql::lexer::Tok;

fn collect_all(input: &str) -> Vec<Spanned<Tok, usize, LexicalError>> {
    let mut lexer = DrqlLexer::new(input);
    let mut out = Vec::new();
    while let Some(item) = lexer.next() {
        out.push(item);
    }
    out
}

fn collect_tokens(input: &str) -> Vec<Tok> {
    collect_all(input)
        .into_iter()
        .map(|x| x.unwrap().1)
        .collect()
}

#[test]
fn lexer_works_as_expected() {
    let tokens = collect_tokens("t e s t");
    assert_eq!(
        tokens,
        vec![
            Tok::StringLiteral("t".to_string()),
            Tok::StringLiteral("e".to_string()),
            Tok::StringLiteral("s".to_string()),
            Tok::StringLiteral("t".to_string()),
        ]
    );
}

#[test]
fn lexer_mention_everyone_works_as_expected() {
    let results = collect_all("everyone here @everyone @here");
    assert_eq!(
        results,
        vec![
            Ok((0, Tok::StringLiteral("everyone".to_string()), 8)),
            Ok((9, Tok::StringLiteral("here".to_string()), 13)),
            Ok((14, Tok::StringLiteral("everyone".to_string()), 23)),
            Ok((24, Tok::StringLiteral("here".to_string()), 29))
        ]
    );
}

#[test]
fn lexer_unknown_token() {
    let results = collect_all("a #");
    assert_eq!(
        results,
        vec![
            Ok((0, Tok::StringLiteral("a".to_string()), 1)),
            Err(LexicalError::UnknownToken((2, '#'))),
        ]
    );
}

#[test]
fn lexer_token_slices() {
    let tokens = collect_tokens("abc + \"def\" + <@123> + 456 + <@&789> + <@!111>");
    assert_eq!(
        tokens,
        vec![
            Tok::StringLiteral("abc".to_string()),
            Tok::Plus,
            Tok::StringLiteral("def".to_string()),
            Tok::Plus,
            Tok::UserMention("123".to_string()),
            Tok::Plus,
            Tok::IDLiteral("456".to_string()),
            Tok::Plus,
            Tok::RoleMention("789".to_string()),
            Tok::Plus,
            Tok::UserMention("111".to_string()),
        ]
    );
}

#[test]
fn lexer_single_char_operators_span_one() {
    let cases = vec![
        ("+", Tok::Plus),
        ("-", Tok::Minus),
        ("|", Tok::Pipe),
        ("&", Tok::Ampersand),
        ("(", Tok::LeftParen),
        (")", Tok::RightParen),
    ];
    for (text, tok) in cases {
        assert_eq!(collect_all(text), vec![Ok((0, tok, 1))]);
    }
}

#[test]
fn lexer_lone_hash_is_unknown_at_zero() {
    assert_eq!(collect_all("#"), vec![Err(LexicalError::UnknownToken((0, '#')))]);
}

#[test]
fn lexer_unterminated_string() {
    let results = collect_all("\"abc");
    assert_eq!(results, vec![Err(LexicalError::UnterminatedStringLiteral(0))]);
}

#[test]
fn lexer_keeps_escapes_raw() {
    let results = collect_all("\"a\\\"b\"");
    assert_eq!(
        results,
        vec![Ok((0, Tok::StringLiteral("a\\\"b".to_string()), 6))]
    );
}

#[test]
fn tokens_render_as_surface_text() {
    assert_eq!(Tok::Plus.render(), "+");
    assert_eq!(Tok::StringLiteral("a b".to_string()).render(), "\"a b\"");
    assert_eq!(Tok::IDLiteral("42".to_string()).render(), "42");
    assert_eq!(Tok::UserMention("12".to_string()).render(), "<@12>");
    assert_eq!(Tok::RoleMention("7".to_string()).render(), "<@&7>");
}

#[test]
fn lexical_errors_have_messages() {
    assert_eq!(
        LexicalError::UnknownToken((2, '#')).message(),
        "Unknown token at index 2: `#`"
    );
    assert_eq!(
        LexicalError::UnterminatedStringLiteral(7).message(),
        "Unterminated string literal at index 7"
    );
    assert_eq!(LexicalError::MalformedInteger.message(), "Malformed integer.");
}
