use ssg::num::{checked_pow10, float_check, parse_u64, FloatErrorKind, IntErrorKind};
use ssg::text::{decimal_string, lines_of, pieces_of};
use std::io::BufRead;

fn chars(s: &str) -> Vec<char> {
    s.chars().collect()
}

#[test]
fn u64_parsing_agrees_with_std() {
    for s in [
        "", "0", "42", "+7", "+", "-", "-1", "12a", "a12", "18446744073709551615",
        "18446744073709551616", "99999999999999999999x", "0000000000000000000000001", "1_0", "٣",
    ] {
        let v = chars(s);
        let ours = parse_u64(&v, 0, v.len());
        let theirs = s.parse::<u64>();
        match (ours, theirs) {
            (Ok(a), Ok(b)) => assert_eq!(a, b, "{s}"),
            (Err(k), Err(e)) => {
                let expected = match e.kind() {
                    std::num::IntErrorKind::Empty => IntErrorKind::Empty,
                    std::num::IntErrorKind::InvalidDigit => IntErrorKind::InvalidDigit,
                    std::num::IntErrorKind::PosOverflow => IntErrorKind::PosOverflow,
                    k => panic!("{k:?}"),
                };
                assert_eq!(k, expected, "{s}");
                assert_eq!(k.message(), e.to_string(), "{s}");
            }
            (a, b) => panic!("{s}: {a:?} vs {b:?}"),
        }
    }
}

#[test]
fn float_syntax_agrees_with_std() {
    for s in [
        "", ".", "1.", ".5", "1.5", "1.e5", ".e5", "e5", "1e", "1e+5", "1E-5", "+.5", "-1", "+",
        "1.2.3", "inf", "-Infinity", "NaN", "nana", "1e5.0", "1_0", "12.3e4",
    ] {
        let ours = float_check(&chars(s));
        let theirs = s.parse::<f64>();
        match (&ours, &theirs) {
            (Ok(()), Ok(_)) => {}
            (Err(k), Err(e)) => {
                assert_eq!(k.message(), e.to_string(), "{s}");
                if s.is_empty() {
                    assert_eq!(*k, FloatErrorKind::Empty);
                } else {
                    assert_eq!(*k, FloatErrorKind::Invalid);
                }
            }
            _ => panic!("{s}: {ours:?} vs {theirs:?}"),
        }
    }
}

#[test]
fn powers_of_ten() {
    assert_eq!(checked_pow10(0), Some(1));
    assert_eq!(checked_pow10(3), Some(1000));
    assert_eq!(checked_pow10(19), Some(10_000_000_000_000_000_000));
    assert_eq!(checked_pow10(20), None);
    assert_eq!(checked_pow10(u32::MAX), None);
}

#[test]
fn exponent_is_taken_modulo_two_to_the_32() {
    let mut l = ssg::block::lex::Lex::new();
    assert_eq!(l.lex("7e4294967296"), Ok(()));
    assert_eq!(l.tokens()[0], ssg::block::lex::TokenType::Int(7));
}

#[test]
fn decimal_notation() {
    for n in [0usize, 7, 10, 99, 100, 12345, usize::MAX] {
        assert_eq!(decimal_string(n), n.to_string());
    }
}

#[test]
fn lines_agree_with_std() {
    for s in ["", "a", "a\n", "a\nb", "a\r\nb\r\n", "\n\n", "baz\r", "a\rb\n", "\r\n"] {
        let ours = lines_of(s);
        let theirs: Vec<&str> = s.lines().collect();
        assert_eq!(ours, theirs, "{s:?}");
    }
}

#[test]
fn pieces_agree_with_read_line() {
    for s in ["", "a", "a\n", "a\nb", "a\r\nb\r\n", "\n\n"] {
        let ours = pieces_of(s);
        let mut theirs = Vec::new();
        let mut r = std::io::Cursor::new(s.as_bytes());
        let mut line = String::new();
        while r.read_line(&mut line).unwrap() > 0 {
            theirs.push(line.clone());
            line.clear();
        }
        assert_eq!(ours, theirs, "{s:?}");
    }
}
