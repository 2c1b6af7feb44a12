use ssg::block::lex::{Lex, LexErrorKind, Pos, TokenType};
use ssg::num::{FloatErrorKind, IntErrorKind};

fn lex(input: &str) -> (Result<(), ssg::block::lex::LexError>, Lex) {
    let mut l = Lex::new();
    let r = l.lex(input);
    (r, l)
}

#[test]
fn keywords() {
    let (r, l) = lex("and or not if else while yield");
    assert_eq!(r, Ok(()));
    assert_eq!(
        l.tokens(),
        &[
            TokenType::And,
            TokenType::Or,
            TokenType::Not,
            TokenType::If,
            TokenType::Else,
            TokenType::While,
            TokenType::Yield,
            TokenType::Eof
        ]
    );
}

#[test]
fn symbols_and_places() {
    let (r, l) = lex("(a, b)\n[c]{d};/*-+#");
    assert_eq!(r, Ok(()));
    assert_eq!(
        l.tokens(),
        &[
            TokenType::LParen,
            TokenType::Id("a".into()),
            TokenType::Comma,
            TokenType::Id("b".into()),
            TokenType::RParen,
            TokenType::LBrack,
            TokenType::Id("c".into()),
            TokenType::RBrack,
            TokenType::LBrace,
            TokenType::Id("d".into()),
            TokenType::RBrace,
            TokenType::Semicolon,
            TokenType::Slash,
            TokenType::Star,
            TokenType::Minus,
            TokenType::Plus,
            TokenType::Pound,
            TokenType::Eof
        ]
    );
    assert_eq!(l.positions()[4], Pos { line: 1, column: 6 });
    assert_eq!(l.positions()[5], Pos { line: 2, column: 1 });
    assert_eq!(l.tokens().len(), l.positions().len());
}

#[test]
fn columns_count_bytes() {
    let (r, l) = lex("\"é\" x");
    assert_eq!(r, Ok(()));
    assert_eq!(l.tokens(), &[TokenType::LitStr("é".into()), TokenType::Id("x".into()), TokenType::Eof]);
    assert_eq!(
        l.positions(),
        &[Pos { line: 1, column: 1 }, Pos { line: 1, column: 6 }, Pos { line: 1, column: 6 }]
    );
}

#[test]
fn string_escapes() {
    let (r, l) = lex("\"a\\\"b\\\\c\\d\"");
    assert_eq!(r, Ok(()));
    assert_eq!(l.tokens(), &[TokenType::LitStr("a\"b\\c\\d".into()), TokenType::Eof]);
}

#[test]
fn invalid_token() {
    let (r, l) = lex("a @");
    let e = r.unwrap_err();
    assert_eq!(e.kind(), &LexErrorKind::InvalidToken("@".into()));
    assert_eq!(e.pos(), Pos { line: 1, column: 3 });
    assert_eq!(e.describe(), "1:3: invalid token @");
    assert_eq!(l.tokens(), &[TokenType::Id("a".into())]);
}

#[test]
fn unclosed_string() {
    let (r, _) = lex("x = \"abc");
    let e = r.unwrap_err();
    assert_eq!(e.kind(), &LexErrorKind::UnclosedStr);
    assert_eq!(e.pos(), Pos { line: 1, column: 8 });
    assert_eq!(e.describe(), "1:8: unclosed string");
}

#[test]
fn integer_too_large() {
    let (r, _) = lex("  18446744073709551616 ");
    let e = r.unwrap_err();
    assert_eq!(e.kind(), &LexErrorKind::ParseInt(IntErrorKind::PosOverflow));
    assert_eq!(e.pos(), Pos { line: 1, column: 3 });
    assert_eq!(e.describe(), "1:3: int parsing, number too large to fit in target type");
}

#[test]
fn largest_integer() {
    let (r, l) = lex("18446744073709551615 1e19");
    assert_eq!(r, Ok(()));
    assert_eq!(
        l.tokens(),
        &[TokenType::Int(18446744073709551615), TokenType::Int(10000000000000000000), TokenType::Eof]
    );
}

#[test]
fn exponent_overflow() {
    let (r, _) = lex("2e20 ");
    let e = r.unwrap_err();
    assert_eq!(e.kind(), &LexErrorKind::Overflow("2e20".into()));
    assert_eq!(e.describe(), "1:1: numerical value overflow 2e20");
    let (r, _) = lex("2e19 ");
    assert_eq!(r.unwrap_err().kind(), &LexErrorKind::Overflow("2e19".into()));
}

#[test]
fn exponent_without_digits() {
    let (r, _) = lex("1e ");
    let e = r.unwrap_err();
    assert_eq!(e.kind(), &LexErrorKind::InvalidToken("1e".into()));
    assert_eq!(e.pos(), Pos { line: 1, column: 3 });
}

#[test]
fn float_exponent_then_symbol() {
    let (r, _) = lex("1.5e3;");
    assert_eq!(r.unwrap_err().kind(), &LexErrorKind::InvalidToken(";".into()));
}

#[test]
fn lone_dot_is_no_float() {
    let (r, _) = lex(". ");
    let e = r.unwrap_err();
    assert_eq!(e.kind(), &LexErrorKind::ParseFloat(FloatErrorKind::Invalid));
    assert_eq!(e.describe(), "1:1: float parsing, invalid float literal");
}

#[test]
fn float_forms() {
    let (r, l) = lex("1. 1.e5 0.5e1_0 ");
    assert_eq!(r, Ok(()));
    let values: Vec<f64> = l.tokens()[..3]
        .iter()
        .map(|t| match t {
            TokenType::Float(s) => s.parse::<f64>().unwrap(),
            t => panic!("{t:?}"),
        })
        .collect();
    assert_eq!(values, vec![1.0, 1e5, 0.5e10]);
}

#[test]
fn colon_equal() {
    let (r, l) = lex("a := 1");
    assert_eq!(r, Ok(()));
    assert_eq!(
        l.tokens(),
        &[TokenType::Id("a".into()), TokenType::ColonEq, TokenType::Int(1), TokenType::Eof]
    );
    assert_eq!(l.positions()[1], Pos { line: 1, column: 3 });
    let (r, _) = lex("a :");
    assert_eq!(r.unwrap_err().kind(), &LexErrorKind::InvalidToken(":".into()));
    let (r, _) = lex("a : = 1");
    assert_eq!(r.unwrap_err().kind(), &LexErrorKind::InvalidToken(" ".into()));
}

#[test]
fn token_after_exponent_gets_its_own_place() {
    let (r, l) = lex("12e3;");
    assert_eq!(r, Ok(()));
    assert_eq!(l.tokens(), &[TokenType::Int(12000), TokenType::Semicolon, TokenType::Eof]);
    assert_eq!(
        l.positions(),
        &[Pos { line: 1, column: 1 }, Pos { line: 1, column: 5 }, Pos { line: 1, column: 5 }]
    );
}

#[test]
fn comment_ends_with_its_line() {
    let (r, l) = lex("a ! b c\r\nd");
    assert_eq!(r, Ok(()));
    assert_eq!(l.tokens(), &[TokenType::Id("a".into()), TokenType::Id("d".into()), TokenType::Eof]);
    assert_eq!(l.positions()[1], Pos { line: 2, column: 1 });
}

#[test]
fn stuck_lexer_is_left_unchanged() {
    let mut l = Lex::new();
    assert!(l.try_lex("a < b").is_none());
    assert!(l.tokens().is_empty());
    assert_eq!(l.try_lex("a"), Some(Ok(())));
    // The lexer stays in the identifier state with nothing read, which it
    // cannot continue from.
    assert!(l.try_lex("b").is_none());
    assert_eq!(l.tokens(), &[TokenType::Id("a".into()), TokenType::Eof]);
}

#[test]
fn unfinished_exponent_at_end_is_stuck() {
    let mut l = Lex::new();
    assert!(l.try_lex("12e").is_none());
    assert!(l.try_lex("1.").is_some());
}

#[test]
fn place_text() {
    assert_eq!(Pos { line: 12, column: 305 }.describe(), "12:305");
    assert_eq!(Pos { line: 0, column: 0 }.describe(), "0:0");
}

#[test]
fn places_never_go_back_and_eof_comes_once_at_the_end() {
    let (r, l) = lex("while a = 12e3 {\n  b := \"x\" + 1.5e2 ; ! note\n}\n");
    assert_eq!(r, Ok(()));
    let tokens = l.tokens();
    let places = l.positions();
    assert_eq!(tokens.len(), places.len());
    for w in places.windows(2) {
        assert!((w[0].line, w[0].column) <= (w[1].line, w[1].column));
    }
    assert_eq!(tokens.last(), Some(&TokenType::Eof));
    assert_eq!(tokens.iter().filter(|t| **t == TokenType::Eof).count(), 1);
}
