use ssg::block::{Lex, TokenType};

#[test]
fn block_simple_assignment() {
    let test_str = "hello = \"hello\";";
    let mut lex = Lex::new();
    assert_eq!(lex.lex(test_str), Ok(()));
    assert_eq!(
        lex.tokens(),
        &[
            TokenType::Id(String::from("hello")),
            TokenType::Eq,
            TokenType::LitStr(String::from("hello")),
            TokenType::Semicolon
        ]
    );
}

#[test]
fn block_keyword_detection() {
    let test_str = "yield \"hello\";";
    let mut lex = Lex::new();
    assert_eq!(lex.lex(test_str), Ok(()));
    assert_eq!(
        lex.tokens(),
        &[TokenType::Yield, TokenType::LitStr(String::from("hello")), TokenType::Semicolon]
    );
}
