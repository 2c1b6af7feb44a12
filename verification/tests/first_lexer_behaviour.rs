use ssg::block::{Lex, LexError, TokenType};

#[test]
fn include_and_words() {
    let mut l = Lex::new();
    assert_eq!(l.lex("# x =y;"), Ok(()));
    assert_eq!(
        l.tokens(),
        &[
            TokenType::Include("".into()),
            TokenType::Id("x".into()),
            TokenType::Eq,
            TokenType::Semicolon,
        ]
    );
    // A word cut short by a symbol is not emitted.
    assert!(l.try_lex("z").is_none());
}

#[test]
fn include_names() {
    let mut l = Lex::new();
    assert_eq!(l.lex("#foo #bar_2 x"), Ok(()));
    assert_eq!(
        l.tokens(),
        &[
            TokenType::Include("foo".into()),
            TokenType::Include("bar_2".into()),
            TokenType::Id("x".into())
        ]
    );
    let mut l = Lex::new();
    assert_eq!(l.lex("#foo"), Ok(()));
    assert_eq!(l.tokens(), &[TokenType::Include("foo".into())]);
}

#[test]
fn word_at_end() {
    let mut l = Lex::new();
    assert_eq!(l.lex("abc yield"), Ok(()));
    assert_eq!(l.tokens(), &[TokenType::Id("abc".into()), TokenType::Yield]);
}

#[test]
fn first_lexer_errors() {
    let mut l = Lex::new();
    assert_eq!(l.lex("a @"), Err(LexError::InvalidToken("@".into())));
    let mut l = Lex::new();
    assert_eq!(l.lex("\"abc"), Err(LexError::UnclosedStr));
}

#[test]
fn first_lexer_stuck_inputs() {
    let mut l = Lex::new();
    assert!(l.try_lex("a := b").is_none());
    assert!(l.tokens().is_empty());
    assert_eq!(l.try_lex("\"a\\\"b\""), Some(Ok(())));
    assert_eq!(l.tokens(), &[TokenType::LitStr("a\"b".into())]);
}
