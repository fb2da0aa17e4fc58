use intersection::drql::ast::Expr;
use intersection::drql::lexer::LexicalError;
use intersection::drql::parser::ParseError;
use intersection::drql::parser::parse_drql;

fn name(s: &str) -> Box<Expr> {
    Box::new(Expr::StringLiteral(s.to_string()))
}

#[test]
fn many_token_types() {
    assert_eq!(
        parse_drql(
            "raw_name\n  + \"string literal\"\n  + <@1>\n  + <@!2>\n  + <@&3>\n  + 4\n"
        ),
        Ok(Expr::Union(
            Box::new(Expr::Union(
                Box::new(Expr::Union(
                    Box::new(Expr::Union(
                        Box::new(Expr::Union(
                            Box::new(Expr::StringLiteral("raw_name".to_string())),
                            Box::new(Expr::StringLiteral("string literal".to_string()))
                        )),
                        Box::new(Expr::UserID(1))
                    )),
                    Box::new(Expr::UserID(2))
                )),
                Box::new(Expr::RoleID(3))
            )),
            Box::new(Expr::UnknownID("4".to_string()))
        ))
    );
}

#[test]
fn intersection_binds_tighter_than_union() {
    assert_eq!(
        parse_drql("a & b + c"),
        Ok(Expr::Union(
            Box::new(Expr::Intersection(name("a"), name("b"))),
            name("c")
        ))
    );
}

#[test]
fn difference_is_left_associative() {
    assert_eq!(
        parse_drql("a - b - c"),
        Ok(Expr::Difference(
            Box::new(Expr::Difference(name("a"), name("b"))),
            name("c")
        ))
    );
}

#[test]
fn empty_input_is_fatal() {
    assert_eq!(
        parse_drql(""),
        Err(ParseError::UnrecognizedEof { location: 0 })
    );
}

#[test]
fn render_reparses_to_equal_tree() {
    let cases = vec![
        "a & b + c",
        "a - b - c",
        "(everyone - here) & \"string literal\" + <@1> - <@&3> | 4",
        "@everyone - @here",
        "\"a\\\"b\" + \"x\\y\"",
    ];
    for text in cases {
        let tree = parse_drql(text).unwrap();
        let rendered = tree.render();
        let reparsed = parse_drql(rendered.as_str()).unwrap();
        assert_eq!(tree, reparsed);
    }
}

#[test]
fn at_everyone_parses_like_bare_everyone() {
    assert_eq!(parse_drql("@everyone"), parse_drql("everyone"));
    assert_eq!(parse_drql("@here"), parse_drql("here"));
}

#[test]
fn oversized_mention_id_is_malformed() {
    assert_eq!(
        parse_drql("<@99999999999999999999999>"),
        Err(ParseError::User {
            error: LexicalError::MalformedInteger
        })
    );
}

#[test]
fn oversized_bare_id_stays_a_string() {
    assert_eq!(
        parse_drql("99999999999999999999999"),
        Ok(Expr::UnknownID("99999999999999999999999".to_string()))
    );
}

#[test]
fn lexical_error_surfaces_as_user_error() {
    assert_eq!(
        parse_drql("a + $"),
        Err(ParseError::User {
            error: LexicalError::UnknownToken((4, '$'))
        })
    );
    assert_eq!(
        parse_drql("\"abc"),
        Err(ParseError::User {
            error: LexicalError::UnterminatedStringLiteral(0)
        })
    );
}

#[test]
fn leftover_token_is_extra() {
    assert_eq!(
        parse_drql("a b"),
        Err(ParseError::ExtraToken {
            start: 2,
            token: intersection::drql::lexer::Tok::StringLiteral("b".to_string()),
            end: 3
        })
    );
}

#[test]
fn missing_operand_is_unrecognized() {
    assert_eq!(
        parse_drql("a + + b"),
        Err(ParseError::UnrecognizedToken {
            start: 4,
            token: intersection::drql::lexer::Tok::Plus,
            end: 5
        })
    );
}

#[test]
fn unmatched_paren_is_eof() {
    assert_eq!(
        parse_drql("(a"),
        Err(ParseError::UnrecognizedEof { location: 2 })
    );
}

#[test]
fn mention_id_boundary_is_exact() {
    assert_eq!(
        parse_drql("<@18446744073709551615>"),
        Ok(Expr::UserID(u64::MAX))
    );
    assert_eq!(
        parse_drql("<@18446744073709551616>"),
        Err(ParseError::User {
            error: LexicalError::MalformedInteger
        })
    );
}
