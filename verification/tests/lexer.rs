use ssg::block::lex::{Lex, Pos, TokenType};

/// A token as a test expects it: floats by value.
enum Tok {
    T(TokenType),
    F(f64),
}

fn assert_tokens(actual: &[TokenType], expected: Vec<Tok>) {
    assert_eq!(actual.len(), expected.len(), "{actual:?}");
    for (a, e) in actual.iter().zip(expected.into_iter()) {
        match (a, e) {
            (TokenType::Float(s), Tok::F(f)) => assert_eq!(s.parse::<f64>().unwrap(), f),
            (a, Tok::T(t)) => assert_eq!(a, &t),
            (a, Tok::F(f)) => panic!("{a:?} is not the float {f}"),
        }
    }
}

#[test]
fn lex_simple_assignment() {
    let test_str = "hello = \"hello\";";
    let mut lex = Lex::new();
    assert_eq!(lex.lex(test_str), Ok(()));
    assert_eq!(
        lex.tokens(),
        &[
            TokenType::Id(String::from("hello")),
            TokenType::Eq,
            TokenType::LitStr(String::from("hello")),
            TokenType::Semicolon,
            TokenType::Eof,
        ]
    );
    assert_eq!(
        lex.positions(),
        &[
            Pos { line: 1, column: 1 },
            Pos { line: 1, column: 7 },
            Pos { line: 1, column: 9 },
            Pos { line: 1, column: 16 },
            Pos { line: 1, column: 16 }
        ]
    );
}

#[test]
fn lex_keyword_detection() {
    let test_str = "yield \"hello\";";
    let mut lex = Lex::new();
    assert_eq!(lex.lex(test_str), Ok(()));
    assert_eq!(
        lex.tokens(),
        &[
            TokenType::Yield,
            TokenType::LitStr(String::from("hello")),
            TokenType::Semicolon,
            TokenType::Eof,
        ]
    );
    assert_eq!(
        lex.positions(),
        &[
            Pos { line: 1, column: 1 },
            Pos { line: 1, column: 7 },
            Pos { line: 1, column: 14 },
            Pos { line: 1, column: 14 }
        ]
    );
}

#[test]
fn parse_nums() {
    let test_str = "123 12.3 12e3 12.3e4 0123456789 1_2_3 .456";
    let mut lex = Lex::new();
    assert_eq!(lex.lex(test_str), Ok(()));
    assert_tokens(
        lex.tokens(),
        vec![
            Tok::T(TokenType::Int(123)),
            Tok::F(12.3),
            Tok::T(TokenType::Int(12000)),
            Tok::F(123000.0),
            Tok::T(TokenType::Int(123456789)),
            Tok::T(TokenType::Int(123)),
            Tok::F(0.456),
            Tok::T(TokenType::Eof),
        ],
    );
    assert_eq!(
        lex.positions(),
        &[
            Pos { line: 1, column: 1 },
            Pos { line: 1, column: 5 },
            Pos { line: 1, column: 10 },
            Pos { line: 1, column: 15 },
            Pos { line: 1, column: 22 },
            Pos { line: 1, column: 33 },
            Pos { line: 1, column: 39 },
            Pos { line: 1, column: 42 },
        ]
    );
}

#[test]
fn parse_expr() {
    let test_str = "1.0+2.0";
    let mut lex = Lex::new();
    assert_eq!(lex.lex(test_str), Ok(()));
    assert_tokens(
        lex.tokens(),
        vec![Tok::F(1.0), Tok::T(TokenType::Plus), Tok::F(2.0), Tok::T(TokenType::Eof)],
    );
    assert_eq!(
        lex.positions(),
        &[
            Pos { line: 1, column: 1 },
            Pos { line: 1, column: 4 },
            Pos { line: 1, column: 5 },
            Pos { line: 1, column: 7 }
        ]
    );
}

#[test]
fn comment() {
    let test_str = "! 1+2=3\n\"hello\"";
    let mut lex = Lex::new();
    assert_eq!(lex.lex(test_str), Ok(()));
    assert_eq!(lex.tokens(), &[TokenType::LitStr("hello".into()), TokenType::Eof]);
    assert_eq!(lex.positions(), &[Pos { line: 2, column: 1 }, Pos { line: 2, column: 7 }]);
}
