use ssg::block::lex::{Pos, TokenType};
use ssg::block::parse::{ExprKind, Parse, ParseErrorKind};

#[test]
fn unexpected_token() {
    let mut parse = Parse::new();
    let mut toks = vec![TokenType::Eq];
    let mut poss = vec![Pos { line: 3, column: 4 }];
    let e = parse.parse_expr_primary(&mut toks, &mut poss).unwrap_err();
    match e.kind() {
        ParseErrorKind::Unexpected { expect, actual } => {
            assert_eq!(*expect, &["expression"][..]);
            assert_eq!(actual, &TokenType::Eq);
        }
        k => panic!("{k:?}"),
    }
    assert_eq!(e.pos(), Pos { line: 3, column: 4 });
    assert!(toks.is_empty() && poss.is_empty());
}

#[test]
fn missing_closing_paren() {
    let mut parse = Parse::new();
    let mut toks = vec![TokenType::Int(1), TokenType::LParen];
    let mut poss = vec![Pos { line: 1, column: 1 }, Pos { line: 1, column: 2 }];
    let e = parse.parse_expr_primary(&mut toks, &mut poss).unwrap_err();
    assert!(matches!(e.kind(), ParseErrorKind::ExpectToken));
    assert_eq!(e.pos(), Pos { line: 1, column: 2 });
    assert_eq!(parse.exprs(), &[ExprKind::Int(1)]);
}

#[test]
fn wrong_closing_token() {
    let mut parse = Parse::new();
    let mut toks = vec![TokenType::Semicolon, TokenType::Id("a".into()), TokenType::LParen];
    let mut poss = vec![Pos { line: 1, column: 5 }];
    let e = parse.parse_expr_primary(&mut toks, &mut poss).unwrap_err();
    match e.kind() {
        ParseErrorKind::Unexpected { expect, actual } => {
            assert_eq!(*expect, &[")"][..]);
            assert_eq!(actual, &TokenType::Semicolon);
        }
        k => panic!("{k:?}"),
    }
}

#[test]
fn results_are_expression_indices() {
    let mut parse = Parse::new();
    let mut toks = vec![TokenType::Id("b".into()), TokenType::Id("a".into())];
    let mut poss = vec![];
    assert_eq!(parse.parse_expr(&mut toks, &mut poss).unwrap(), 0);
    assert_eq!(parse.parse_expr(&mut toks, &mut poss).unwrap(), 1);
    assert_eq!(parse.exprs()[1], ExprKind::Id("b".into()));
    let mut toks = vec![TokenType::RParen, TokenType::Int(5), TokenType::LParen];
    let i = parse.parse_expr(&mut toks, &mut poss).unwrap();
    assert_eq!(i, 2);
    assert_eq!(parse.exprs()[i], ExprKind::Int(5));
}
