use ssg::block::lex::{Pos, TokenType};
use ssg::block::parse::{ExprKind, Parse, StmtKind};

#[test]
fn primary() {
    let tokens = [
        TokenType::Id("hello".into()),
        TokenType::LitStr("goodbye".into()),
        TokenType::Int(69),
        TokenType::Float(42.0f64.to_string()),
    ];
    let positions = [
        Pos { line: 1, column: 1 },
        Pos { line: 1, column: 7 },
        Pos { line: 1, column: 15 },
        Pos { line: 1, column: 17 },
    ];
    let mut parse = Parse::new();

    for (tok, pos) in tokens.into_iter().zip(positions.into_iter()) {
        let mut tokvec = vec![tok];
        let mut posvec = vec![pos];
        let _prim = parse.parse_expr_primary(&mut tokvec, &mut posvec).unwrap();
    }
    let no_stmts: &[StmtKind] = &[];
    assert_eq!(parse.stmts().as_slice(), no_stmts);
    let exprs = parse.exprs();
    assert_eq!(exprs.len(), 4);
    assert_eq!(exprs[0], ExprKind::Id("hello".into()));
    assert_eq!(exprs[1], ExprKind::LitStr("goodbye".into()));
    assert_eq!(exprs[2], ExprKind::Int(69));
    match &exprs[3] {
        ExprKind::Float(s) => assert_eq!(s.parse::<f64>().unwrap(), 42.0),
        e => panic!("{e:?} is not a float"),
    }
}

#[test]
fn parens() {
    let mut tokens = vec![
        TokenType::LParen,
        TokenType::LitStr("hello".into()),
        TokenType::RParen,
    ];
    let mut poss = vec![
        Pos { line: 1, column: 1 },
        Pos { line: 1, column: 2 },
        Pos { line: 1, column: 7 },
    ];
    tokens.reverse();
    let mut parse = Parse::default();
    parse.parse_expr_primary(&mut tokens, &mut poss).unwrap();
    assert_eq!(parse.exprs(), &[ExprKind::LitStr("hello".into())]);
}
