//! Block lexer: turns the text of a block into tokens, each with the line and
//! column at which it starts.

use crate::num::{
    FloatErrorKind, IntErrorKind, checked_pow10, float_error_message, int_error_message, checked_pow10_spec, float_check, float_check_spec,
    parse_u64, parse_u64_spec,
};
use crate::segment::{extended_grapheme_indices, grapheme_indices};
use crate::text::{
    all_whitespace, all_word_char, decimal, decimal_string, all_word_chars, all_word_start, all_word_starts, all_ws,
    chars_of, is_ascii_digit, is_ascii_ws, is_digit_char, is_word_start, is_ws_char, lines_of, push_char,
    same_chars, single_char, single_char_of, string_of_char, take_string, text_lines,
};
use vstd::prelude::*;
use vstd::string::StrSliceExecFns;
use vstd::string::StringExecFns;

verus! {

/// A place in the input: 1-based line, and 1-based byte column within the line.
#[derive(Debug, PartialEq, Eq, Clone, Copy, Structural)]
pub struct Pos {
    pub line: usize,
    pub column: usize,
}

/// A token. A float literal is kept as its text (underscores removed), which
/// `f64::from_str` accepts.
#[derive(Debug, PartialEq)]
pub enum TokenType {
    Id(String),
    LitStr(String),
    Int(u64),
    Float(String),
    /// symbols
    /// :=
    ColonEq,
    /// =
    Eq,
    /// ,
    Comma,
    /// ;
    Semicolon,
    /// +
    Plus,
    /// -
    Minus,
    /// *
    Star,
    /// /
    Slash,
    /// &
    Amper,
    /// |
    Bar,
    /// ^
    Caret,
    /// (
    LParen,
    /// )
    RParen,
    /// {
    LBrace,
    /// }
    RBrace,
    /// [
    LBrack,
    /// ]
    RBrack,
    /// <
    Less,
    /// <<
    LessLess,
    /// >
    Greater,
    /// >>
    GreaterGreater,
    /// <=
    LessEq,
    /// >=
    GreaterEq,
    /// #
    Pound,
    // keywords
    /// "yield"
    Yield,
    /// "and"
    And,
    /// "or"
    Or,
    /// "not"
    Not,
    /// "if"
    If,
    /// "else"
    Else,
    /// "while"
    While,
    Eof,
}

/// A token as a mathematical value: text is a sequence of characters.
pub enum TokenView {
    Id(Seq<char>),
    LitStr(Seq<char>),
    Int(u64),
    Float(Seq<char>),
    ColonEq,
    Eq,
    Comma,
    Semicolon,
    Plus,
    Minus,
    Star,
    Slash,
    Amper,
    Bar,
    Caret,
    LParen,
    RParen,
    LBrace,
    RBrace,
    LBrack,
    RBrack,
    Less,
    LessLess,
    Greater,
    GreaterGreater,
    LessEq,
    GreaterEq,
    Pound,
    Yield,
    And,
    Or,
    Not,
    If,
    Else,
    While,
    Eof,
}

impl View for TokenType {
    type V = TokenView;

    open spec fn view(&self) -> TokenView {
        match self {
            TokenType::Id(s) => TokenView::Id(s@),
            TokenType::LitStr(s) => TokenView::LitStr(s@),
            TokenType::Int(i) => TokenView::Int(*i),
            TokenType::Float(s) => TokenView::Float(s@),
            TokenType::ColonEq => TokenView::ColonEq,
            TokenType::Eq => TokenView::Eq,
            TokenType::Comma => TokenView::Comma,
            TokenType::Semicolon => TokenView::Semicolon,
            TokenType::Plus => TokenView::Plus,
            TokenType::Minus => TokenView::Minus,
            TokenType::Star => TokenView::Star,
            TokenType::Slash => TokenView::Slash,
            TokenType::Amper => TokenView::Amper,
            TokenType::Bar => TokenView::Bar,
            TokenType::Caret => TokenView::Caret,
            TokenType::LParen => TokenView::LParen,
            TokenType::RParen => TokenView::RParen,
            TokenType::LBrace => TokenView::LBrace,
            TokenType::RBrace => TokenView::RBrace,
            TokenType::LBrack => TokenView::LBrack,
            TokenType::RBrack => TokenView::RBrack,
            TokenType::Less => TokenView::Less,
            TokenType::LessLess => TokenView::LessLess,
            TokenType::Greater => TokenView::Greater,
            TokenType::GreaterGreater => TokenView::GreaterGreater,
            TokenType::LessEq => TokenView::LessEq,
            TokenType::GreaterEq => TokenView::GreaterEq,
            TokenType::Pound => TokenView::Pound,
            TokenType::Yield => TokenView::Yield,
            TokenType::And => TokenView::And,
            TokenType::Or => TokenView::Or,
            TokenType::Not => TokenView::Not,
            TokenType::If => TokenView::If,
            TokenType::Else => TokenView::Else,
            TokenType::While => TokenView::While,
            TokenType::Eof => TokenView::Eof,
        }
    }
}

/// The lexer's state: which kind of token is being read.
#[derive(Debug, PartialEq, Eq, Clone, Copy, Structural)]
pub enum LexState {
    Init,
    Id,
    Int,
    Float,
    IntExponent,
    FloatExponent,
    LitStr,
    Less,
    Greater,
    Colon,
    /// During LitStr, meet a "\\"
    Escape,
    Comment,
}

/// What went wrong while lexing.
#[derive(Debug, PartialEq)]
pub enum LexErrorKind {
    InvalidToken(String),
    ParseInt(IntErrorKind),
    ParseFloat(FloatErrorKind),
    Overflow(String),
    UnclosedStr,
}

/// A lexing error and the place it refers to.
#[derive(Debug, PartialEq)]
pub struct LexError {
    kind: LexErrorKind,
    pos: Pos,
}

/// `LexErrorKind` as a mathematical value.
pub enum LexErrorKindView {
    InvalidToken(Seq<char>),
    ParseInt(IntErrorKind),
    ParseFloat(FloatErrorKind),
    Overflow(Seq<char>),
    UnclosedStr,
}

/// `LexError` as a mathematical value.
pub struct LexErrorView {
    pub kind: LexErrorKindView,
    pub pos: Pos,
}

impl View for LexErrorKind {
    type V = LexErrorKindView;

    open spec fn view(&self) -> LexErrorKindView {
        match self {
            LexErrorKind::InvalidToken(s) => LexErrorKindView::InvalidToken(s@),
            LexErrorKind::ParseInt(e) => LexErrorKindView::ParseInt(*e),
            LexErrorKind::ParseFloat(e) => LexErrorKindView::ParseFloat(*e),
            LexErrorKind::Overflow(s) => LexErrorKindView::Overflow(s@),
            LexErrorKind::UnclosedStr => LexErrorKindView::UnclosedStr,
        }
    }
}

impl View for LexError {
    type V = LexErrorView;

    closed spec fn view(&self) -> LexErrorView {
        LexErrorView { kind: self.kind@, pos: self.pos }
    }
}

/// Block lexer
///
/// The current implementation has quite bad debug output. The most we can output is, where the
/// start/end of the block that errs is.
pub struct Lex {
    tokens: Vec<TokenType>,
    positions: Vec<Pos>,
    state: LexState,
    /// Only really used when ending the Comment state
    curr_token: String,
    curr_pos: Pos,
}

/// `Lex` as a mathematical value.
pub struct LexView {
    pub tokens: Seq<TokenView>,
    pub positions: Seq<Pos>,
    pub state: LexState,
    pub curr_token: Seq<char>,
    pub curr_pos: Pos,
}

impl View for Lex {
    type V = LexView;

    closed spec fn view(&self) -> LexView {
        LexView {
            tokens: self.tokens@.map_values(|t: TokenType| t@),
            positions: self.positions@,
            state: self.state,
            curr_token: self.curr_token@,
            curr_pos: self.curr_pos,
        }
    }
}

/// The outcome of lexing some input from a given lexer: the lexer as it is
/// afterwards, and whether it succeeded, failed with an error, or got stuck
/// (`Stuck`: the input reaches something the lexer cannot handle, such as an
/// unsupported symbol or a state that breaks its own assumptions; the lexer
/// is given as it was at that point).
pub enum Outcome {
    Done(LexView),
    Failed(LexView, LexErrorView),
    Stuck(LexView),
}

// ----- the lexer as a state machine -----

/// The lexer with `tok` appended at `pos`.
pub open spec fn push_tok(m: LexView, tok: TokenView, pos: Pos) -> LexView {
    LexView { tokens: m.tokens.push(tok), positions: m.positions.push(pos), ..m }
}

/// The lexer in state `st`.
pub open spec fn with_state(m: LexView, st: LexState) -> LexView {
    LexView { state: st, ..m }
}

/// The lexer with `t` as the token being read.
pub open spec fn with_token(m: LexView, t: Seq<char>) -> LexView {
    LexView { curr_token: t, ..m }
}

/// The lexer starting a token in state `st` at `pos`, with `t` read so far.
pub open spec fn start_token(m: LexView, st: LexState, t: Seq<char>, pos: Pos) -> LexView {
    LexView { state: st, curr_token: t, curr_pos: pos, ..m }
}

/// The error `kind` at `pos`.
pub open spec fn err(kind: LexErrorKindView, pos: Pos) -> LexErrorView {
    LexErrorView { kind, pos }
}

/// The token of a symbol that stands for itself alone.
pub open spec fn symbol_token(c: char) -> Option<TokenView> {
    if c == '=' {
        Some(TokenView::Eq)
    } else if c == ',' {
        Some(TokenView::Comma)
    } else if c == ';' {
        Some(TokenView::Semicolon)
    } else if c == '+' {
        Some(TokenView::Plus)
    } else if c == '-' {
        Some(TokenView::Minus)
    } else if c == '*' {
        Some(TokenView::Star)
    } else if c == '/' {
        Some(TokenView::Slash)
    } else if c == '(' {
        Some(TokenView::LParen)
    } else if c == ')' {
        Some(TokenView::RParen)
    } else if c == '{' {
        Some(TokenView::LBrace)
    } else if c == '}' {
        Some(TokenView::RBrace)
    } else if c == '[' {
        Some(TokenView::LBrack)
    } else if c == ']' {
        Some(TokenView::RBrack)
    } else if c == '#' {
        Some(TokenView::Pound)
    } else {
        None
    }
}

/// The keyword token that `t` spells, if any.
pub open spec fn keyword(t: Seq<char>) -> Option<TokenView> {
    if t == seq!['y', 'i', 'e', 'l', 'd'] {
        Some(TokenView::Yield)
    } else if t == seq!['a', 'n', 'd'] {
        Some(TokenView::And)
    } else if t == seq!['o', 'r'] {
        Some(TokenView::Or)
    } else if t == seq!['n', 'o', 't'] {
        Some(TokenView::Not)
    } else if t == seq!['i', 'f'] {
        Some(TokenView::If)
    } else if t == seq!['e', 'l', 's', 'e'] {
        Some(TokenView::Else)
    } else if t == seq!['w', 'h', 'i', 'l', 'e'] {
        Some(TokenView::While)
    } else {
        None
    }
}

/// Where `c` first occurs in `s`.
pub open spec fn first_index_of(s: Seq<char>, c: char) -> Option<int>
    decreases s.len(),
{
    if s.len() == 0 {
        None
    } else if s[0] == c {
        Some(0)
    } else {
        match first_index_of(s.drop_first(), c) {
            Some(i) => Some(i + 1),
            None => None,
        }
    }
}

/// An integer literal, possibly with a decimal exponent after `e` (the
/// exponent is taken modulo 2^32, as `pow as u32` does).
pub open spec fn int_from_str_spec(s: Seq<char>) -> Result<u64, LexErrorKindView> {
    match first_index_of(s, 'e') {
        Some(idx) => match parse_u64_spec(s.take(idx)) {
            Err(e) => Err(LexErrorKindView::ParseInt(e)),
            Ok(lhs) => match parse_u64_spec(s.skip(idx + 1)) {
                Err(e) => Err(LexErrorKindView::ParseInt(e)),
                Ok(pow) => match checked_pow10_spec((pow as int % 0x1_0000_0000) as nat) {
                    None => Err(LexErrorKindView::Overflow(s)),
                    Some(rhs) => if lhs * rhs <= u64::MAX {
                        Ok((lhs * rhs) as u64)
                    } else {
                        Err(LexErrorKindView::Overflow(s))
                    },
                },
            },
        },
        None => match parse_u64_spec(s) {
            Err(e) => Err(LexErrorKindView::ParseInt(e)),
            Ok(v) => Ok(v),
        },
    }
}

/// One grapheme in state `Init`.
pub open spec fn init_step(m: LexView, g: Seq<char>, pos: Pos) -> Outcome {
    if all_ws(g) {
        Outcome::Done(m)
    } else if all_word_start(g) {
        if m.curr_token.len() != 0 {
            Outcome::Stuck(m)
        } else {
            Outcome::Done(start_token(m, LexState::Id, m.curr_token + g, pos))
        }
    } else {
        match single_char_of(g) {
            None => Outcome::Done(m),
            Some(c) => if c == '"' {
                Outcome::Done(start_token(m, LexState::LitStr, m.curr_token, pos))
            } else if c == ':' {
                Outcome::Done(start_token(m, LexState::Colon, m.curr_token, pos))
            } else if is_ascii_digit(c) {
                Outcome::Done(start_token(m, LexState::Int, m.curr_token.push(c), pos))
            } else if c == '.' {
                Outcome::Done(start_token(m, LexState::Float, m.curr_token.push(c), pos))
            } else if c == '<' || c == '>' {
                Outcome::Stuck(m)
            } else if c == '!' {
                Outcome::Done(with_state(m, LexState::Comment))
            } else {
                match symbol_token(c) {
                    Some(tok) => Outcome::Done(push_tok(m, tok, pos)),
                    None => Outcome::Failed(m, err(LexErrorKindView::InvalidToken(seq![c]), pos)),
                }
            }
        }
    }
}

/// The token read so far, emitted as a keyword or an identifier.
pub open spec fn emit_word(m: LexView) -> LexView {
    match keyword(m.curr_token) {
        Some(kw) => with_token(push_tok(m, kw, m.curr_pos), seq![]),
        None => with_token(push_tok(m, TokenView::Id(m.curr_token), m.curr_pos), seq![]),
    }
}

/// One grapheme in state `Id`.
pub open spec fn id_step(m: LexView, g: Seq<char>, pos: Pos) -> Outcome {
    if m.curr_token.len() == 0 {
        Outcome::Stuck(m)
    } else if all_word_char(g) {
        Outcome::Done(with_token(m, m.curr_token + g))
    } else {
        init_step(with_state(emit_word(m), LexState::Init), g, pos)
    }
}

/// One grapheme in state `Int`.
pub open spec fn int_step(m: LexView, g: Seq<char>, pos: Pos) -> Outcome {
    match single_char_of(g) {
        None => Outcome::Failed(m, err(LexErrorKindView::InvalidToken(g), m.curr_pos)),
        Some(c) => if is_ascii_digit(c) {
            Outcome::Done(with_token(m, m.curr_token.push(c)))
        } else if c == '.' {
            Outcome::Done(with_token(with_state(m, LexState::Float), m.curr_token.push(c)))
        } else if c == '_' {
            Outcome::Done(m)
        } else if c == 'e' {
            Outcome::Done(with_token(with_state(m, LexState::IntExponent), m.curr_token.push(c)))
        } else {
            let m1 = with_state(m, LexState::Init);
            match parse_u64_spec(m.curr_token) {
                Err(e) => Outcome::Failed(m1, err(LexErrorKindView::ParseInt(e), m.curr_pos)),
                Ok(v) => init_step(
                    with_token(push_tok(m1, TokenView::Int(v), m.curr_pos), seq![]),
                    g,
                    pos,
                ),
            }
        }
    }
}

/// One grapheme in state `Float`.
pub open spec fn float_step(m: LexView, g: Seq<char>, pos: Pos) -> Outcome {
    match single_char_of(g) {
        None => Outcome::Failed(m, err(LexErrorKindView::InvalidToken(g), m.curr_pos)),
        Some(c) => if is_ascii_digit(c) {
            Outcome::Done(with_token(m, m.curr_token.push(c)))
        } else if c == '_' {
            Outcome::Done(m)
        } else if c == 'e' {
            Outcome::Done(with_token(with_state(m, LexState::FloatExponent), m.curr_token.push(c)))
        } else {
            let m1 = with_state(m, LexState::Init);
            match float_check_spec(m.curr_token) {
                Err(e) => Outcome::Failed(m1, err(LexErrorKindView::ParseFloat(e), m.curr_pos)),
                Ok(_) => init_step(
                    with_token(push_tok(m1, TokenView::Float(m.curr_token), m.curr_pos), seq![]),
                    g,
                    pos,
                ),
            }
        }
    }
}

/// One grapheme in state `IntExponent`.
pub open spec fn int_exponent_step(m: LexView, g: Seq<char>, pos: Pos) -> Outcome {
    match single_char_of(g) {
        None => Outcome::Failed(m, err(LexErrorKindView::InvalidToken(g), m.curr_pos)),
        Some(c) => if is_ascii_digit(c) {
            Outcome::Done(with_token(m, m.curr_token.push(c)))
        } else if c == '_' {
            Outcome::Done(m)
        } else if m.curr_token.len() == 0 {
            Outcome::Stuck(m)
        } else if m.curr_token.last() == 'e' {
            Outcome::Failed(
                with_token(m, seq![]),
                err(LexErrorKindView::InvalidToken(m.curr_token), pos),
            )
        } else {
            let m1 = with_state(m, LexState::Init);
            match int_from_str_spec(m.curr_token) {
                Err(k) => Outcome::Failed(m1, err(k, m.curr_pos)),
                Ok(v) => init_step(
                    with_token(push_tok(m1, TokenView::Int(v), m.curr_pos), seq![]),
                    g,
                    pos,
                ),
            }
        }
    }
}

/// One grapheme in state `FloatExponent`.
pub open spec fn float_exponent_step(m: LexView, g: Seq<char>, pos: Pos) -> Outcome {
    match single_char_of(g) {
        None => Outcome::Failed(m, err(LexErrorKindView::InvalidToken(g), pos)),
        Some(c) => if is_ascii_ws(c) {
            if m.curr_token.len() == 0 {
                Outcome::Stuck(m)
            } else if m.curr_token.last() == 'e' {
                Outcome::Failed(
                    with_token(m, seq![]),
                    err(LexErrorKindView::InvalidToken(m.curr_token), pos),
                )
            } else {
                let m1 = with_state(m, LexState::Init);
                match float_check_spec(m.curr_token) {
                    Err(e) => Outcome::Failed(m1, err(LexErrorKindView::ParseFloat(e), pos)),
                    Ok(_) => Outcome::Done(
                        with_token(push_tok(m1, TokenView::Float(m.curr_token), m.curr_pos), seq![]),
                    ),
                }
            }
        } else if is_ascii_digit(c) {
            Outcome::Done(with_token(m, m.curr_token.push(c)))
        } else if c == '_' {
            Outcome::Done(m)
        } else {
            Outcome::Failed(m, err(LexErrorKindView::InvalidToken(seq![c]), pos))
        }
    }
}

/// One grapheme in state `LitStr`.
pub open spec fn lit_str_step(m: LexView, g: Seq<char>) -> Outcome {
    if single_char_of(g) == Some('"') {
        Outcome::Done(
            with_token(
                push_tok(with_state(m, LexState::Init), TokenView::LitStr(m.curr_token), m.curr_pos),
                seq![],
            ),
        )
    } else if single_char_of(g) == Some('\\') {
        Outcome::Done(with_state(m, LexState::Escape))
    } else {
        Outcome::Done(with_token(m, m.curr_token + g))
    }
}

/// One grapheme in state `Escape`: `\"` and `\\` stand for `"` and `\`; any
/// other grapheme is kept with the backslash before it.
pub open spec fn escape_step(m: LexView, g: Seq<char>) -> Outcome {
    let t = if single_char_of(g) == Some('"') {
        m.curr_token.push('"')
    } else if single_char_of(g) == Some('\\') {
        m.curr_token.push('\\')
    } else {
        m.curr_token.push('\\') + g
    };
    Outcome::Done(with_state(with_token(m, t), LexState::LitStr))
}

/// One grapheme in state `Less`.
pub open spec fn less_step(m: LexView, g: Seq<char>, pos: Pos) -> Outcome {
    if single_char_of(g) == Some('=') {
        Outcome::Done(with_state(push_tok(m, TokenView::LessEq, m.curr_pos), LexState::Init))
    } else if single_char_of(g) == Some('<') {
        Outcome::Done(with_state(push_tok(m, TokenView::LessLess, m.curr_pos), LexState::Init))
    } else {
        init_step(with_state(push_tok(m, TokenView::Less, m.curr_pos), LexState::Init), g, pos)
    }
}

/// One grapheme in state `Greater`.
pub open spec fn greater_step(m: LexView, g: Seq<char>, pos: Pos) -> Outcome {
    if single_char_of(g) == Some('=') {
        Outcome::Done(with_state(push_tok(m, TokenView::GreaterEq, m.curr_pos), LexState::Init))
    } else if single_char_of(g) == Some('>') {
        Outcome::Done(with_state(push_tok(m, TokenView::GreaterGreater, m.curr_pos), LexState::Init))
    } else {
        init_step(with_state(push_tok(m, TokenView::Greater, m.curr_pos), LexState::Init), g, pos)
    }
}

/// One grapheme in state `Colon`: only `=` may follow, completing `:=`.
pub open spec fn colon_step(m: LexView, g: Seq<char>, pos: Pos) -> Outcome {
    if g != seq!['='] {
        Outcome::Failed(m, err(LexErrorKindView::InvalidToken(g), pos))
    } else {
        Outcome::Done(with_state(push_tok(m, TokenView::ColonEq, m.curr_pos), LexState::Init))
    }
}

/// One grapheme `g` at `pos`.
#[verifier::opaque]
pub open spec fn step(m: LexView, g: Seq<char>, pos: Pos) -> Outcome {
    match m.state {
        LexState::Init => init_step(m, g, pos),
        LexState::Id => id_step(m, g, pos),
        LexState::Int => int_step(m, g, pos),
        LexState::Float => float_step(m, g, pos),
        LexState::IntExponent => int_exponent_step(m, g, pos),
        LexState::FloatExponent => float_exponent_step(m, g, pos),
        LexState::LitStr => lit_str_step(m, g),
        LexState::Escape => escape_step(m, g),
        LexState::Less => less_step(m, g, pos),
        LexState::Greater => greater_step(m, g, pos),
        LexState::Colon => colon_step(m, g, pos),
        LexState::Comment => Outcome::Done(m),
    }
}

/// The graphemes of line number `line` (with their byte offsets), one after
/// the other; also the place of the last grapheme read (`pos` if none).
pub open spec fn run_line(m: LexView, line: usize, gs: Seq<(usize, Seq<char>)>, pos: Pos) -> (
    Outcome,
    Pos,
)
    decreases gs.len(),
{
    if gs.len() == 0 {
        (Outcome::Done(m), pos)
    } else {
        match run_line(m, line, gs.drop_last(), pos) {
            (Outcome::Done(m1), p1) => {
                let (off, g) = gs.last();
                if off == usize::MAX {
                    (Outcome::Stuck(m1), p1)
                } else {
                    let p = Pos { line, column: (off + 1) as usize };
                    (step(m1, g, p), p)
                }
            },
            other => other,
        }
    }
}

/// The state at the start of a line: a comment ends with its line.
pub open spec fn line_start(m: LexView) -> LexView {
    if m.state == LexState::Comment { with_state(m, LexState::Init) } else { m }
}

/// All lines, one after the other (line numbers start at 1).
pub open spec fn run_lines(m: LexView, lines: Seq<Seq<(usize, Seq<char>)>>, pos: Pos) -> (
    Outcome,
    Pos,
)
    decreases lines.len(),
{
    if lines.len() == 0 {
        (Outcome::Done(m), pos)
    } else {
        match run_lines(m, lines.drop_last(), pos) {
            (Outcome::Done(m1), p1) => run_line(
                line_start(m1),
                lines.len() as usize,
                lines.last(),
                p1,
            ),
            other => other,
        }
    }
}

/// The end of the input, with `pos` the place of the last grapheme: the token
/// being read is emitted, then `Eof`.
pub open spec fn finish(m: LexView, pos: Pos) -> Outcome {
    let before_eof = match m.state {
        LexState::Init | LexState::Comment => Outcome::Done(m),
        LexState::Id => match keyword(m.curr_token) {
            Some(kw) => Outcome::Done(push_tok(m, kw, m.curr_pos)),
            None => Outcome::Done(with_token(push_tok(m, TokenView::Id(m.curr_token), m.curr_pos), seq![])),
        },
        LexState::Int | LexState::IntExponent => match int_from_str_spec(m.curr_token) {
            Ok(v) => Outcome::Done(push_tok(m, TokenView::Int(v), m.curr_pos)),
            Err(_) => Outcome::Stuck(m),
        },
        LexState::Float | LexState::FloatExponent => match float_check_spec(m.curr_token) {
            Ok(_) => Outcome::Done(push_tok(m, TokenView::Float(m.curr_token), m.curr_pos)),
            Err(_) => Outcome::Stuck(m),
        },
        LexState::LitStr | LexState::Escape => Outcome::Failed(m, err(LexErrorKindView::UnclosedStr, pos)),
        LexState::Less => Outcome::Done(push_tok(m, TokenView::Less, pos)),
        LexState::Greater => Outcome::Done(push_tok(m, TokenView::Greater, pos)),
        LexState::Colon => Outcome::Failed(m, err(LexErrorKindView::InvalidToken(seq![':']), pos)),
    };
    match before_eof {
        Outcome::Done(m1) => Outcome::Done(push_tok(m1, TokenView::Eof, pos)),
        other => other,
    }
}

/// Lexing input already split into lines of graphemes with byte offsets.
pub open spec fn lex_lines_spec(m: LexView, lines: Seq<Seq<(usize, Seq<char>)>>) -> Outcome {
    match run_lines(m, lines, Pos { line: 0, column: 0 }) {
        (Outcome::Done(m1), p) => finish(m1, p),
        (other, _) => other,
    }
}

/// The lines of `input` (`str::lines`), each split into extended grapheme
/// clusters with their byte offsets.
pub open spec fn segmented_lines(input: Seq<char>) -> Seq<Seq<(usize, Seq<char>)>> {
    text_lines(input).map_values(|l: Seq<char>| extended_grapheme_indices(l))
}

/// Lexing `input`.
pub open spec fn lex_spec(m: LexView, input: Seq<char>) -> Outcome {
    lex_lines_spec(m, segmented_lines(input))
}

/// Whether an exec lexer `after` and result `r` are what the outcome `o` says
/// (`None` for `Stuck`).
pub open spec fn agrees(o: Outcome, after: LexView, r: Option<Result<(), LexError>>) -> bool {
    match o {
        Outcome::Done(m) => after == m && r == Some(Ok::<(), LexError>(())),
        Outcome::Failed(m, e) => after == m && (r matches Some(Err(x)) && x@ == e),
        Outcome::Stuck(m) => after == m && r is None,
    }
}

/// The view of one segmented line.
pub open spec fn line_view(l: Vec<(usize, &str)>) -> Seq<(usize, Seq<char>)> {
    l@.map_values(|p: (usize, &str)| (p.0, p.1@))
}

/// The view of segmented lines.
pub open spec fn lines_view(ls: Seq<Vec<(usize, &str)>>) -> Seq<Seq<(usize, Seq<char>)>> {
    ls.map_values(|l: Vec<(usize, &str)>| line_view(l))
}

/// The lexer before any input.
pub open spec fn initial() -> LexView {
    LexView {
        tokens: seq![],
        positions: seq![],
        state: LexState::Init,
        curr_token: seq![],
        curr_pos: Pos { line: 0, column: 0 },
    }
}

impl LexError {
    /// What went wrong.
    pub fn kind(&self) -> (k: &LexErrorKind)
        ensures
            k@ == self@.kind,
    {
        &self.kind
    }

    /// Where it went wrong.
    pub fn pos(&self) -> (p: Pos)
        ensures
            p == self@.pos,
    {
        self.pos
    }
}

impl TokenType {
    /// A copy of this token.
    pub fn duplicate(&self) -> (r: TokenType)
        ensures
            r@ == self@,
    {
        match self {
            TokenType::Id(s) => TokenType::Id(s.clone()),
            TokenType::LitStr(s) => TokenType::LitStr(s.clone()),
            TokenType::Int(i) => TokenType::Int(*i),
            TokenType::Float(s) => TokenType::Float(s.clone()),
            TokenType::ColonEq => TokenType::ColonEq,
            TokenType::Eq => TokenType::Eq,
            TokenType::Comma => TokenType::Comma,
            TokenType::Semicolon => TokenType::Semicolon,
            TokenType::Plus => TokenType::Plus,
            TokenType::Minus => TokenType::Minus,
            TokenType::Star => TokenType::Star,
            TokenType::Slash => TokenType::Slash,
            TokenType::Amper => TokenType::Amper,
            TokenType::Bar => TokenType::Bar,
            TokenType::Caret => TokenType::Caret,
            TokenType::LParen => TokenType::LParen,
            TokenType::RParen => TokenType::RParen,
            TokenType::LBrace => TokenType::LBrace,
            TokenType::RBrace => TokenType::RBrace,
            TokenType::LBrack => TokenType::LBrack,
            TokenType::RBrack => TokenType::RBrack,
            TokenType::Less => TokenType::Less,
            TokenType::LessLess => TokenType::LessLess,
            TokenType::Greater => TokenType::Greater,
            TokenType::GreaterGreater => TokenType::GreaterGreater,
            TokenType::LessEq => TokenType::LessEq,
            TokenType::GreaterEq => TokenType::GreaterEq,
            TokenType::Pound => TokenType::Pound,
            TokenType::Yield => TokenType::Yield,
            TokenType::And => TokenType::And,
            TokenType::Or => TokenType::Or,
            TokenType::Not => TokenType::Not,
            TokenType::If => TokenType::If,
            TokenType::Else => TokenType::Else,
            TokenType::While => TokenType::While,
            TokenType::Eof => TokenType::Eof,
        }
    }
}

/// The token of a symbol that stands for itself alone.
fn symbol(c: char) -> (r: Option<TokenType>)
    ensures
        match r {
            Some(t) => symbol_token(c) == Some(t@),
            None => symbol_token(c) is None,
        },
{
    if c == '=' {
        Some(TokenType::Eq)
    } else if c == ',' {
        Some(TokenType::Comma)
    } else if c == ';' {
        Some(TokenType::Semicolon)
    } else if c == '+' {
        Some(TokenType::Plus)
    } else if c == '-' {
        Some(TokenType::Minus)
    } else if c == '*' {
        Some(TokenType::Star)
    } else if c == '/' {
        Some(TokenType::Slash)
    } else if c == '(' {
        Some(TokenType::LParen)
    } else if c == ')' {
        Some(TokenType::RParen)
    } else if c == '{' {
        Some(TokenType::LBrace)
    } else if c == '}' {
        Some(TokenType::RBrace)
    } else if c == '[' {
        Some(TokenType::LBrack)
    } else if c == ']' {
        Some(TokenType::RBrack)
    } else if c == '#' {
        Some(TokenType::Pound)
    } else {
        None
    }
}

/// Where `c` first occurs in `v`.
fn find_char(v: &Vec<char>, c: char) -> (r: Option<usize>)
    ensures
        match r {
            Some(i) => i < v@.len() && first_index_of(v@, c) == Some(i as int),
            None => first_index_of(v@, c) is None,
        },
{
    let mut i: usize = 0;
    while i < v.len()
        invariant
            i <= v@.len(),
            forall|j: int| 0 <= j < i ==> v@[j] != c,
        decreases v@.len() - i,
    {
        if v[i] == c {
            proof { lemma_first_index_of(v@, c, i as int); }
            return Some(i);
        }
        i = i + 1;
    }
    proof { lemma_first_index_of(v@, c, v@.len() as int); }
    None
}

proof fn lemma_first_index_of(s: Seq<char>, c: char, m: int)
    requires
        0 <= m <= s.len(),
        forall|j: int| 0 <= j < m ==> s[j] != c,
        m == s.len() || s[m] == c,
    ensures
        m < s.len() ==> first_index_of(s, c) == Some(m),
        m == s.len() ==> first_index_of(s, c) is None,
    decreases m,
{
    if m > 0 {
        let u = s.drop_first();
        assert forall|j: int| 0 <= j < m - 1 implies u[j] != c by {
            assert(u[j] == s[j + 1]);
        }
        if m < s.len() {
            assert(u[m - 1] == s[m]);
        }
        lemma_first_index_of(u, c, m - 1);
    }
}

impl Lex {
    pub fn new() -> (r: Self)
        ensures
            r@ == initial(),
    {
        Self::default()
    }
}

impl Default for Lex {
    fn default() -> (r: Self)
        ensures
            r@ == initial(),
    {
        let r = Lex {
            tokens: Vec::new(),
            positions: Vec::new(),
            state: LexState::Init,
            curr_token: String::new(),
            curr_pos: Pos { line: 0, column: 0 },
        };
        assert(r@.tokens == Seq::<TokenView>::empty());
        r
    }
}

impl Lex {
    /// The tokens read so far.
    pub fn tokens(&self) -> (t: &Vec<TokenType>)
        ensures
            t@.map_values(|x: TokenType| x@) == self@.tokens,
    {
        &self.tokens
    }

    /// The place of each token read so far.
    pub fn positions(&self) -> (p: &Vec<Pos>)
        ensures
            p@ == self@.positions,
    {
        &self.positions
    }

    /// A copy of this lexer.
    pub fn duplicate(&self) -> (r: Lex)
        ensures
            r@ == self@,
    {
        let mut tokens: Vec<TokenType> = Vec::new();
        let mut i: usize = 0;
        while i < self.tokens.len()
            invariant
                i <= self.tokens@.len(),
                tokens@.map_values(|x: TokenType| x@) == self.tokens@.take(i as int).map_values(
                    |x: TokenType| x@,
                ),
            decreases self.tokens@.len() - i,
        {
            let t = self.tokens[i].duplicate();
            tokens.push(t);
            assert(self.tokens@.take(i + 1) == self.tokens@.take(i as int).push(self.tokens@[i as int]));
            assert(self.tokens@.take(i + 1).map_values(|x: TokenType| x@)
                == self.tokens@.take(i as int).map_values(|x: TokenType| x@).push(t@));
            i = i + 1;
            assert(tokens@.map_values(|x: TokenType| x@) == self.tokens@.take(i as int).map_values(
                |x: TokenType| x@,
            ));
        }
        assert(self.tokens@.take(i as int) == self.tokens@);
        Lex {
            tokens,
            positions: self.positions.clone(),
            state: self.state,
            curr_token: self.curr_token.clone(),
            curr_pos: self.curr_pos,
        }
    }

    fn add_token(&mut self, tok: TokenType, pos: Pos)
        ensures
            final(self)@ == push_tok(old(self)@, tok@, pos),
    {
        self.tokens.push(tok);
        self.positions.push(pos);
        assert(self@.tokens == old(self)@.tokens.push(tok@));
    }

    fn token_is_empty(&self) -> (b: bool)
        ensures
            b == (self@.curr_token.len() == 0),
    {
        self.curr_token.as_str().is_empty()
    }

    fn lex_init(&mut self, gr: &str, pos: Pos) -> (r: Option<Result<(), LexError>>)
        ensures
            agrees(init_step(old(self)@, gr@, pos), final(self)@, r),
    {
        if all_whitespace(gr) {
            return Some(Ok(()));
        }
        if all_word_starts(gr) {
            if !self.token_is_empty() {
                return None;
            }
            self.state = LexState::Id;
            self.curr_token.append(gr);
            self.curr_pos = pos;
            return Some(Ok(()));
        }
        if let Some(c) = single_char(gr) {
            if c == '"' {
                self.state = LexState::LitStr;
                self.curr_pos = pos;
            } else if c == ':' {
                self.state = LexState::Colon;
                self.curr_pos = pos;
            } else if is_digit_char(c) {
                push_char(&mut self.curr_token, c);
                self.state = LexState::Int;
                self.curr_pos = pos;
            } else if c == '.' {
                push_char(&mut self.curr_token, c);
                self.state = LexState::Float;
                self.curr_pos = pos;
            } else if c == '<' || c == '>' {
                return None;
            } else if c == '!' {
                self.state = LexState::Comment;
            } else {
                match symbol(c) {
                    Some(tok) => self.add_token(tok, pos),
                    None => {
                        return Some(
                            Err(LexError { kind: LexErrorKind::InvalidToken(string_of_char(c)), pos }),
                        );
                    },
                }
            }
        }
        Some(Ok(()))
    }

    /// The keyword token that `token` spells, if any.
    fn check_for_keyword(token: &str) -> (r: Option<TokenType>)
        ensures
            match r {
                Some(t) => keyword(token@) == Some(t@),
                None => keyword(token@) is None,
            },
    {
        let t = chars_of(token);
        if same_chars(&t, &vec!['y', 'i', 'e', 'l', 'd']) {
            Some(TokenType::Yield)
        } else if same_chars(&t, &vec!['a', 'n', 'd']) {
            Some(TokenType::And)
        } else if same_chars(&t, &vec!['o', 'r']) {
            Some(TokenType::Or)
        } else if same_chars(&t, &vec!['n', 'o', 't']) {
            Some(TokenType::Not)
        } else if same_chars(&t, &vec!['i', 'f']) {
            Some(TokenType::If)
        } else if same_chars(&t, &vec!['e', 'l', 's', 'e']) {
            Some(TokenType::Else)
        } else if same_chars(&t, &vec!['w', 'h', 'i', 'l', 'e']) {
            Some(TokenType::While)
        } else {
            None
        }
    }

    /// Emits the token read so far as a keyword or an identifier.
    fn emit_word(&mut self)
        ensures
            final(self)@ == emit_word(old(self)@),
    {
        let word = take_string(&mut self.curr_token);
        let p = self.curr_pos;
        match Self::check_for_keyword(word.as_str()) {
            Some(kw) => self.add_token(kw, p),
            None => self.add_token(TokenType::Id(word), p),
        }
    }

    fn lex_id(&mut self, gr: &str, pos: Pos) -> (r: Option<Result<(), LexError>>)
        ensures
            agrees(id_step(old(self)@, gr@, pos), final(self)@, r),
    {
        if self.token_is_empty() {
            return None;
        }
        if all_word_chars(gr) {
            self.curr_token.append(gr);
            return Some(Ok(()));
        }
        self.emit_word();
        self.state = LexState::Init;
        self.lex_init(gr, pos)
    }

    fn lex_int(&mut self, gr: &str, pos: Pos) -> (r: Option<Result<(), LexError>>)
        ensures
            agrees(int_step(old(self)@, gr@, pos), final(self)@, r),
    {
        let c = match single_char(gr) {
            Some(c) => c,
            None => {
                return Some(
                    Err(LexError { kind: LexErrorKind::InvalidToken(gr.to_owned()), pos: self.curr_pos }),
                );
            },
        };
        if is_digit_char(c) {
            push_char(&mut self.curr_token, c);
        } else if c == '.' {
            self.state = LexState::Float;
            push_char(&mut self.curr_token, c);
        } else if c == '_' {
            // Discard
        } else if c == 'e' {
            self.state = LexState::IntExponent;
            push_char(&mut self.curr_token, c);
        } else {
            self.state = LexState::Init;
            let digits = chars_of(self.curr_token.as_str());
            assert(digits@.subrange(0, digits@.len() as int) == digits@);
            match parse_u64(&digits, 0, digits.len()) {
                Err(e) => {
                    return Some(Err(LexError { kind: LexErrorKind::ParseInt(e), pos: self.curr_pos }));
                },
                Ok(v) => {
                    let p = self.curr_pos;
                    self.add_token(TokenType::Int(v), p);
                    self.curr_token = String::new();
                    return self.lex_init(gr, pos);
                },
            }
        }
        Some(Ok(()))
    }

    fn lex_float(&mut self, gr: &str, pos: Pos) -> (r: Option<Result<(), LexError>>)
        ensures
            agrees(float_step(old(self)@, gr@, pos), final(self)@, r),
    {
        let c = match single_char(gr) {
            Some(c) => c,
            None => {
                return Some(
                    Err(LexError { kind: LexErrorKind::InvalidToken(gr.to_owned()), pos: self.curr_pos }),
                );
            },
        };
        if is_digit_char(c) {
            push_char(&mut self.curr_token, c);
        } else if c == '_' {
            // Discard
        } else if c == 'e' {
            self.state = LexState::FloatExponent;
            push_char(&mut self.curr_token, c);
        } else {
            self.state = LexState::Init;
            match float_check(&chars_of(self.curr_token.as_str())) {
                Err(e) => {
                    return Some(Err(LexError { kind: LexErrorKind::ParseFloat(e), pos: self.curr_pos }));
                },
                Ok(()) => {
                    let p = self.curr_pos;
                    let text = take_string(&mut self.curr_token);
                    self.add_token(TokenType::Float(text), p);
                    return self.lex_init(gr, pos);
                },
            }
        }
        Some(Ok(()))
    }

    /// Whether the token read so far ends with `e`.
    fn token_ends_with_e(&self) -> (b: bool)
        requires
            self@.curr_token.len() > 0,
        ensures
            b == (self@.curr_token.last() == 'e'),
    {
        let s = self.curr_token.as_str();
        s.get_char(s.unicode_len() - 1) == 'e'
    }

    fn lex_int_exponent(&mut self, gr: &str, pos: Pos) -> (r: Option<Result<(), LexError>>)
        ensures
            agrees(int_exponent_step(old(self)@, gr@, pos), final(self)@, r),
    {
        let c = match single_char(gr) {
            Some(c) => c,
            None => {
                return Some(
                    Err(LexError { kind: LexErrorKind::InvalidToken(gr.to_owned()), pos: self.curr_pos }),
                );
            },
        };
        if is_digit_char(c) {
            push_char(&mut self.curr_token, c);
        } else if c == '_' {
            // discard
        } else {
            if self.token_is_empty() {
                return None;
            }
            // no digits after 'e'
            if self.token_ends_with_e() {
                let text = take_string(&mut self.curr_token);
                return Some(Err(LexError { kind: LexErrorKind::InvalidToken(text), pos }));
            }
            self.state = LexState::Init;
            let p = self.curr_pos;
            match Self::int_from_str(self.curr_token.as_str(), p) {
                Err(e) => {
                    return Some(Err(e));
                },
                Ok(v) => {
                    self.add_token(TokenType::Int(v), p);
                    self.curr_token = String::new();
                    return self.lex_init(gr, pos);
                },
            }
        }
        Some(Ok(()))
    }

    fn lex_float_exponent(&mut self, gr: &str, pos: Pos) -> (r: Option<Result<(), LexError>>)
        ensures
            agrees(float_exponent_step(old(self)@, gr@, pos), final(self)@, r),
    {
        let c = match single_char(gr) {
            Some(c) => c,
            None => {
                return Some(Err(LexError { kind: LexErrorKind::InvalidToken(gr.to_owned()), pos }));
            },
        };
        if is_ws_char(c) {
            if self.token_is_empty() {
                return None;
            }
            // no digits after 'e'
            if self.token_ends_with_e() {
                let text = take_string(&mut self.curr_token);
                return Some(Err(LexError { kind: LexErrorKind::InvalidToken(text), pos }));
            }
            self.state = LexState::Init;
            match float_check(&chars_of(self.curr_token.as_str())) {
                Err(e) => {
                    return Some(Err(LexError { kind: LexErrorKind::ParseFloat(e), pos }));
                },
                Ok(()) => {
                    let p = self.curr_pos;
                    let text = take_string(&mut self.curr_token);
                    self.add_token(TokenType::Float(text), p);
                    return Some(Ok(()));
                },
            }
        }
        if is_digit_char(c) {
            push_char(&mut self.curr_token, c);
        } else if c == '_' {
            // discard
        } else {
            return Some(Err(LexError { kind: LexErrorKind::InvalidToken(string_of_char(c)), pos }));
        }
        Some(Ok(()))
    }

    fn lex_lit_str(&mut self, gr: &str) -> (r: Option<Result<(), LexError>>)
        ensures
            agrees(lit_str_step(old(self)@, gr@), final(self)@, r),
    {
        match single_char(gr) {
            Some('"') => {
                self.state = LexState::Init;
                let litstr = take_string(&mut self.curr_token);
                let p = self.curr_pos;
                self.add_token(TokenType::LitStr(litstr), p);
                return Some(Ok(()));
            },
            Some('\\') => {
                self.state = LexState::Escape;
                return Some(Ok(()));
            },
            _ => {},
        }
        self.curr_token.append(gr);
        Some(Ok(()))
    }

    fn lex_escape(&mut self, gr: &str) -> (r: Option<Result<(), LexError>>)
        ensures
            agrees(escape_step(old(self)@, gr@), final(self)@, r),
    {
        match single_char(gr) {
            Some('"') => {
                push_char(&mut self.curr_token, '"');
            },
            Some('\\') => {
                push_char(&mut self.curr_token, '\\');
            },
            _ => {
                push_char(&mut self.curr_token, '\\');
                self.curr_token.append(gr);
            },
        }
        self.state = LexState::LitStr;
        Some(Ok(()))
    }

    fn lex_less(&mut self, gr: &str, pos: Pos) -> (r: Option<Result<(), LexError>>)
        ensures
            agrees(less_step(old(self)@, gr@, pos), final(self)@, r),
    {
        let p = self.curr_pos;
        match single_char(gr) {
            Some('=') => {
                self.add_token(TokenType::LessEq, p);
                self.state = LexState::Init;
                Some(Ok(()))
            },
            Some('<') => {
                self.add_token(TokenType::LessLess, p);
                self.state = LexState::Init;
                Some(Ok(()))
            },
            _ => {
                self.add_token(TokenType::Less, p);
                self.state = LexState::Init;
                self.lex_init(gr, pos)
            },
        }
    }

    fn lex_greater(&mut self, gr: &str, pos: Pos) -> (r: Option<Result<(), LexError>>)
        ensures
            agrees(greater_step(old(self)@, gr@, pos), final(self)@, r),
    {
        let p = self.curr_pos;
        match single_char(gr) {
            Some('=') => {
                self.add_token(TokenType::GreaterEq, p);
                self.state = LexState::Init;
                Some(Ok(()))
            },
            Some('>') => {
                self.add_token(TokenType::GreaterGreater, p);
                self.state = LexState::Init;
                Some(Ok(()))
            },
            _ => {
                self.add_token(TokenType::Greater, p);
                self.state = LexState::Init;
                self.lex_init(gr, pos)
            },
        }
    }

    /// At the moment, can only be followed by "=". Even whitespaces are not valid.
    fn lex_colon(&mut self, gr: &str, pos: Pos) -> (r: Option<Result<(), LexError>>)
        ensures
            agrees(colon_step(old(self)@, gr@, pos), final(self)@, r),
    {
        if single_char(gr) != Some('=') {
            assert(gr@ != seq!['=']);
            return Some(Err(LexError { kind: LexErrorKind::InvalidToken(gr.to_owned()), pos }));
        }
        assert(gr@ == seq!['=']);
        let p = self.curr_pos;
        self.add_token(TokenType::ColonEq, p);
        self.state = LexState::Init;
        Some(Ok(()))
    }

    /// So, according to Rust's u64::from_str, 12e3 is not a valid integer.
    fn int_from_str(s: &str, pos: Pos) -> (r: Result<u64, LexError>)
        ensures
            match r {
                Ok(v) => int_from_str_spec(s@) == Ok::<u64, LexErrorKindView>(v),
                Err(e) => int_from_str_spec(s@) == Err::<u64, LexErrorKindView>(e@.kind) && e@.pos == pos,
            },
    {
        let v = chars_of(s);
        let n = v.len();
        match find_char(&v, 'e') {
            Some(idx) => {
                assert(v@.subrange(0, idx as int) == s@.take(idx as int));
                assert(v@.subrange(idx + 1, n as int) == s@.skip(idx + 1));
                let lhs = match parse_u64(&v, 0, idx) {
                    Ok(l) => l,
                    Err(e) => {
                        return Err(LexError { kind: LexErrorKind::ParseInt(e), pos });
                    },
                };
                let pow = match parse_u64(&v, idx + 1, n) {
                    Ok(p) => p,
                    Err(e) => {
                        return Err(LexError { kind: LexErrorKind::ParseInt(e), pos });
                    },
                };
                let rhs = match checked_pow10((pow % 0x1_0000_0000) as u32) {
                    Some(r) => r,
                    None => {
                        return Err(LexError { kind: LexErrorKind::Overflow(s.to_owned()), pos });
                    },
                };
                match lhs.checked_mul(rhs) {
                    Some(ret) => Ok(ret),
                    None => Err(LexError { kind: LexErrorKind::Overflow(s.to_owned()), pos }),
                }
            },
            None => {
                assert(v@.subrange(0, n as int) == s@);
                match parse_u64(&v, 0, n) {
                    Ok(x) => Ok(x),
                    Err(e) => Err(LexError { kind: LexErrorKind::ParseInt(e), pos }),
                }
            },
        }
    }
}

/// Once reading a line has stopped (failed or got stuck), the rest of the
/// line changes nothing.
pub proof fn lemma_run_line_stops(m: LexView, line: usize, gs: Seq<(usize, Seq<char>)>, pos: Pos, k: int)
    requires
        0 <= k <= gs.len(),
        !(run_line(m, line, gs.take(k), pos).0 is Done),
    ensures
        run_line(m, line, gs, pos) == run_line(m, line, gs.take(k), pos),
    decreases gs.len() - k,
{
    if k < gs.len() {
        assert(gs.take(k + 1).drop_last() == gs.take(k));
        lemma_run_line_stops(m, line, gs, pos, k + 1);
    } else {
        assert(gs.take(k) == gs);
    }
}

/// Once lexing has stopped (failed or got stuck), the remaining lines change
/// nothing.
pub proof fn lemma_run_lines_stops(m: LexView, lines: Seq<Seq<(usize, Seq<char>)>>, pos: Pos, k: int)
    requires
        0 <= k <= lines.len(),
        !(run_lines(m, lines.take(k), pos).0 is Done),
    ensures
        run_lines(m, lines, pos) == run_lines(m, lines.take(k), pos),
    decreases lines.len() - k,
{
    if k < lines.len() {
        assert(lines.take(k + 1).drop_last() == lines.take(k));
        lemma_run_lines_stops(m, lines, pos, k + 1);
    } else {
        assert(lines.take(k) == lines);
    }
}

// ----- laws -----

/// The lexer an outcome leaves, whatever the outcome.
pub open spec fn outcome_lexer(o: Outcome) -> LexView {
    match o {
        Outcome::Done(m) => m,
        Outcome::Failed(m, _) => m,
        Outcome::Stuck(m) => m,
    }
}

/// `m2` is `m` with tokens appended, each with its place: the tokens and
/// places of `m` stay as they were, and as many places as tokens are added.
pub open spec fn extends(m: LexView, m2: LexView) -> bool {
    &&& m.tokens.len() <= m2.tokens.len()
    &&& m.positions.len() <= m2.positions.len()
    &&& m2.tokens.subrange(0, m.tokens.len() as int) == m.tokens
    &&& m2.positions.subrange(0, m.positions.len() as int) == m.positions
    &&& m2.tokens.len() - m.tokens.len() == m2.positions.len() - m.positions.len()
}

proof fn lemma_extends_trans(a: LexView, b: LexView, c: LexView)
    requires
        extends(a, b),
        extends(b, c),
    ensures
        extends(a, c),
{
    assert(c.tokens.subrange(0, a.tokens.len() as int) == b.tokens.subrange(0, a.tokens.len() as int));
    assert(c.positions.subrange(0, a.positions.len() as int) == b.positions.subrange(0, a.positions.len() as int));
}

proof fn lemma_push_tok_extends(m: LexView, tok: TokenView, pos: Pos)
    ensures
        extends(m, push_tok(m, tok, pos)),
{
    assert(push_tok(m, tok, pos).tokens.subrange(0, m.tokens.len() as int) == m.tokens);
    assert(push_tok(m, tok, pos).positions.subrange(0, m.positions.len() as int) == m.positions);
}

proof fn lemma_extends_refl(m: LexView)
    ensures
        extends(m, m),
{
    assert(m.tokens.subrange(0, m.tokens.len() as int) == m.tokens);
    assert(m.positions.subrange(0, m.positions.len() as int) == m.positions);
}

proof fn lemma_init_step_extends(m: LexView, g: Seq<char>, pos: Pos)
    ensures
        extends(m, outcome_lexer(init_step(m, g, pos))),
{
    lemma_extends_refl(m);
    if let Some(c) = single_char_of(g) {
        if let Some(tok) = symbol_token(c) {
            lemma_push_tok_extends(m, tok, pos);
        }
    }
}

proof fn lemma_emit_word_extends(m: LexView)
    ensures
        extends(m, emit_word(m)),
{
    match keyword(m.curr_token) {
        Some(kw) => lemma_push_tok_extends(m, kw, m.curr_pos),
        None => lemma_push_tok_extends(m, TokenView::Id(m.curr_token), m.curr_pos),
    }
}

/// One grapheme only appends tokens, each with its place.
pub proof fn lemma_step_extends(m: LexView, g: Seq<char>, pos: Pos)
    ensures
        extends(m, outcome_lexer(step(m, g, pos))),
{
    reveal(step);
    lemma_extends_refl(m);
    let m1 = with_state(m, LexState::Init);
    lemma_extends_refl(m1);
    match m.state {
        LexState::Init => lemma_init_step_extends(m, g, pos),
        LexState::Id => {
            if m.curr_token.len() != 0 && !all_word_char(g) {
                let e = with_state(emit_word(m), LexState::Init);
                lemma_emit_word_extends(m);
                lemma_init_step_extends(e, g, pos);
                lemma_extends_trans(m, e, outcome_lexer(init_step(e, g, pos)));
            }
        },
        LexState::Int => {
            if let Ok(v) = parse_u64_spec(m.curr_token) {
                let e = with_token(push_tok(m1, TokenView::Int(v), m.curr_pos), seq![]);
                lemma_push_tok_extends(m1, TokenView::Int(v), m.curr_pos);
                lemma_init_step_extends(e, g, pos);
                lemma_extends_trans(m, e, outcome_lexer(init_step(e, g, pos)));
            }
        },
        LexState::Float => {
            let e = with_token(push_tok(m1, TokenView::Float(m.curr_token), m.curr_pos), seq![]);
            lemma_push_tok_extends(m1, TokenView::Float(m.curr_token), m.curr_pos);
            lemma_init_step_extends(e, g, pos);
            lemma_extends_trans(m, e, outcome_lexer(init_step(e, g, pos)));
        },
        LexState::IntExponent => {
            if let Ok(v) = int_from_str_spec(m.curr_token) {
                let e = with_token(push_tok(m1, TokenView::Int(v), m.curr_pos), seq![]);
                lemma_push_tok_extends(m1, TokenView::Int(v), m.curr_pos);
                lemma_init_step_extends(e, g, pos);
                lemma_extends_trans(m, e, outcome_lexer(init_step(e, g, pos)));
            }
            lemma_extends_refl(with_token(m, seq![]));
        },
        LexState::FloatExponent => {
            lemma_push_tok_extends(m1, TokenView::Float(m.curr_token), m.curr_pos);
            lemma_extends_refl(with_token(m, seq![]));
        },
        LexState::LitStr => {
            lemma_push_tok_extends(m1, TokenView::LitStr(m.curr_token), m.curr_pos);
        },
        LexState::Escape => {},
        LexState::Less => {
            lemma_push_tok_extends(m, TokenView::LessEq, m.curr_pos);
            lemma_push_tok_extends(m, TokenView::LessLess, m.curr_pos);
            let e = with_state(push_tok(m, TokenView::Less, m.curr_pos), LexState::Init);
            lemma_push_tok_extends(m, TokenView::Less, m.curr_pos);
            lemma_init_step_extends(e, g, pos);
            lemma_extends_trans(m, e, outcome_lexer(init_step(e, g, pos)));
        },
        LexState::Greater => {
            lemma_push_tok_extends(m, TokenView::GreaterEq, m.curr_pos);
            lemma_push_tok_extends(m, TokenView::GreaterGreater, m.curr_pos);
            let e = with_state(push_tok(m, TokenView::Greater, m.curr_pos), LexState::Init);
            lemma_push_tok_extends(m, TokenView::Greater, m.curr_pos);
            lemma_init_step_extends(e, g, pos);
            lemma_extends_trans(m, e, outcome_lexer(init_step(e, g, pos)));
        },
        LexState::Colon => {
            lemma_push_tok_extends(m, TokenView::ColonEq, m.curr_pos);
            lemma_extends_refl(with_state(push_tok(m, TokenView::ColonEq, m.curr_pos), LexState::Init));
        },
        LexState::Comment => {},
    }
}

proof fn lemma_run_line_extends(m: LexView, line: usize, gs: Seq<(usize, Seq<char>)>, pos: Pos)
    ensures
        extends(m, outcome_lexer(run_line(m, line, gs, pos).0)),
    decreases gs.len(),
{
    if gs.len() == 0 {
        lemma_extends_refl(m);
    } else {
        lemma_run_line_extends(m, line, gs.drop_last(), pos);
        if let (Outcome::Done(m1), p1) = run_line(m, line, gs.drop_last(), pos) {
            let (off, g) = gs.last();
            if off != usize::MAX {
                let p = Pos { line, column: (off + 1) as usize };
                lemma_step_extends(m1, g, p);
                lemma_extends_trans(m, m1, outcome_lexer(step(m1, g, p)));
            }
        }
    }
}

proof fn lemma_run_lines_extends(m: LexView, lines: Seq<Seq<(usize, Seq<char>)>>, pos: Pos)
    ensures
        extends(m, outcome_lexer(run_lines(m, lines, pos).0)),
    decreases lines.len(),
{
    if lines.len() == 0 {
        lemma_extends_refl(m);
    } else {
        lemma_run_lines_extends(m, lines.drop_last(), pos);
        if let (Outcome::Done(m1), p1) = run_lines(m, lines.drop_last(), pos) {
            let s = line_start(m1);
            lemma_extends_refl(m1);
            lemma_run_line_extends(s, lines.len() as usize, lines.last(), p1);
            lemma_extends_trans(m, m1, s);
            lemma_extends_trans(m, s, outcome_lexer(run_line(s, lines.len() as usize, lines.last(), p1).0));
        }
    }
}

/// Lexing only appends tokens, each with its place: the tokens and places
/// read before stay as they were, and every token has exactly one place,
/// whether lexing succeeds, fails or gets stuck.
pub proof fn lemma_lex_extends(m: LexView, lines: Seq<Seq<(usize, Seq<char>)>>)
    ensures
        extends(m, outcome_lexer(lex_lines_spec(m, lines))),
        m.tokens.len() == m.positions.len() ==> outcome_lexer(lex_lines_spec(m, lines)).tokens.len()
            == outcome_lexer(lex_lines_spec(m, lines)).positions.len(),
{
    let p0 = Pos { line: 0, column: 0 };
    lemma_run_lines_extends(m, lines, p0);
    if let (Outcome::Done(m1), p) = run_lines(m, lines, p0) {
        let f = finish(m1, p);
        lemma_extends_refl(m1);
        let before_eof = match m1.state {
            LexState::Init | LexState::Comment => m1,
            LexState::Id => match keyword(m1.curr_token) {
                Some(kw) => push_tok(m1, kw, m1.curr_pos),
                None => with_token(push_tok(m1, TokenView::Id(m1.curr_token), m1.curr_pos), seq![]),
            },
            LexState::Int | LexState::IntExponent => match int_from_str_spec(m1.curr_token) {
                Ok(v) => push_tok(m1, TokenView::Int(v), m1.curr_pos),
                Err(_) => m1,
            },
            LexState::Float | LexState::FloatExponent => match float_check_spec(m1.curr_token) {
                Ok(_) => push_tok(m1, TokenView::Float(m1.curr_token), m1.curr_pos),
                Err(_) => m1,
            },
            LexState::Less => push_tok(m1, TokenView::Less, p),
            LexState::Greater => push_tok(m1, TokenView::Greater, p),
            _ => m1,
        };
        match m1.state {
            LexState::Id => match keyword(m1.curr_token) {
                Some(kw) => lemma_push_tok_extends(m1, kw, m1.curr_pos),
                None => lemma_push_tok_extends(m1, TokenView::Id(m1.curr_token), m1.curr_pos),
            },
            LexState::Int | LexState::IntExponent => if let Ok(v) = int_from_str_spec(m1.curr_token) {
                lemma_push_tok_extends(m1, TokenView::Int(v), m1.curr_pos);
            },
            LexState::Float | LexState::FloatExponent => lemma_push_tok_extends(m1, TokenView::Float(m1.curr_token), m1.curr_pos),
            LexState::Less => lemma_push_tok_extends(m1, TokenView::Less, p),
            LexState::Greater => lemma_push_tok_extends(m1, TokenView::Greater, p),
            _ => {},
        }
        lemma_push_tok_extends(before_eof, TokenView::Eof, p);
        lemma_extends_trans(m1, before_eof, push_tok(before_eof, TokenView::Eof, p));
        lemma_extends_trans(m, m1, before_eof);
        lemma_extends_trans(m, before_eof, push_tok(before_eof, TokenView::Eof, p));
    }
}

/// A successful lexing ends with `Eof`, placed where the last grapheme is.
pub proof fn lemma_lex_ends_with_eof(m: LexView, lines: Seq<Seq<(usize, Seq<char>)>>)
    ensures
        lex_lines_spec(m, lines) matches Outcome::Done(m2) ==> {
            &&& m2.tokens.len() > 0
            &&& m2.tokens.last() == TokenView::Eof
            &&& m2.positions.len() > 0
            &&& m2.positions.last() == run_lines(m, lines, Pos { line: 0, column: 0 }).1
        },
{
}

/// Place `p` comes no later than place `q` (by line, then column).
pub open spec fn pos_le(p: Pos, q: Pos) -> bool {
    p.line < q.line || (p.line == q.line && p.column <= q.column)
}

/// Places that never go back.
pub open spec fn places_ordered(ps: Seq<Pos>) -> bool {
    forall|i: int, j: int| 0 <= i <= j < ps.len() ==> pos_le(#[trigger] ps[i], #[trigger] ps[j])
}

/// Every place of `ps` comes no later than `q`.
pub open spec fn all_before(ps: Seq<Pos>, q: Pos) -> bool {
    forall|i: int| 0 <= i < ps.len() ==> pos_le(#[trigger] ps[i], q)
}

/// No token is `Eof`.
pub open spec fn no_eof(ts: Seq<TokenView>) -> bool {
    forall|i: int| 0 <= i < ts.len() ==> #[trigger] ts[i] != TokenView::Eof
}

/// `Eof` is the last token and no other token is `Eof`.
pub open spec fn eof_once_at_end(ts: Seq<TokenView>) -> bool {
    &&& ts.len() > 0
    &&& ts.last() == TokenView::Eof
    &&& no_eof(ts.drop_last())
}

/// A state in which a token is being read, whose place is `curr_pos`.
pub open spec fn reading_token(st: LexState) -> bool {
    st != LexState::Init && st != LexState::Comment
}

/// What lexing keeps while it reads, `p` being the place of the last
/// grapheme: the places so far never go back and come no later than `p`;
/// a token being read starts no earlier than them and no later than `p`;
/// no `Eof` has been read.
pub open spec fn reading_inv(m: LexView, p: Pos) -> bool {
    &&& places_ordered(m.positions)
    &&& all_before(m.positions, p)
    &&& reading_token(m.state) ==> all_before(m.positions, m.curr_pos) && pos_le(m.curr_pos, p)
    &&& no_eof(m.tokens)
}

/// The graphemes of a line come in order of their byte offsets.
pub open spec fn offsets_ordered(gs: Seq<(usize, Seq<char>)>) -> bool {
    forall|i: int, j: int| 0 <= i <= j < gs.len() ==> (#[trigger] gs[i]).0 <= (#[trigger] gs[j]).0
}

proof fn lemma_push_keeps(m: LexView, tok: TokenView, x: Pos, p: Pos)
    requires
        places_ordered(m.positions),
        all_before(m.positions, x),
        pos_le(x, p),
        no_eof(m.tokens),
        tok != TokenView::Eof,
    ensures
        places_ordered(push_tok(m, tok, x).positions),
        all_before(push_tok(m, tok, x).positions, x),
        all_before(push_tok(m, tok, x).positions, p),
        no_eof(push_tok(m, tok, x).tokens),
{
    let ps = push_tok(m, tok, x).positions;
    assert forall|i: int, j: int| 0 <= i <= j < ps.len() implies pos_le(#[trigger] ps[i], #[trigger] ps[j]) by {
        if j == ps.len() - 1 {
            if i < j {
                assert(pos_le(m.positions[i], x));
            }
        } else {
            assert(pos_le(m.positions[i], m.positions[j]));
        }
    }
    assert forall|i: int| 0 <= i < ps.len() implies pos_le(#[trigger] ps[i], x) by {
        if i < ps.len() - 1 {
            assert(pos_le(m.positions[i], x));
        }
    }
    let ts = push_tok(m, tok, x).tokens;
    assert forall|i: int| 0 <= i < ts.len() implies #[trigger] ts[i] != TokenView::Eof by {
        if i < ts.len() - 1 {
            assert(m.tokens[i] != TokenView::Eof);
        }
    }
}

proof fn lemma_later(m: LexView, p: Pos, q: Pos)
    requires
        reading_inv(m, p),
        pos_le(p, q),
    ensures
        reading_inv(m, q),
        all_before(m.positions, q),
{
    assert forall|i: int| 0 <= i < m.positions.len() implies pos_le(#[trigger] m.positions[i], q) by {
        assert(pos_le(m.positions[i], p));
    }
}

proof fn lemma_init_keeps(m: LexView, g: Seq<char>, p: Pos, q: Pos)
    requires
        reading_inv(m, p),
        pos_le(p, q),
        m.state == LexState::Init,
    ensures
        init_step(m, g, q) matches Outcome::Done(m2) ==> reading_inv(m2, q),
{
    lemma_later(m, p, q);
    if let Some(c) = single_char_of(g) {
        if let Some(tok) = symbol_token(c) {
            lemma_push_keeps(m, tok, q, q);
        }
    }
}

/// Reading one grapheme at `q`, no earlier than the last one at `p`, keeps
/// places in order and reads no `Eof`.
pub proof fn lemma_step_keeps_order(m: LexView, g: Seq<char>, p: Pos, q: Pos)
    requires
        reading_inv(m, p),
        pos_le(p, q),
    ensures
        step(m, g, q) matches Outcome::Done(m2) ==> reading_inv(m2, q),
{
    reveal(step);
    let cp = m.curr_pos;
    let m1 = with_state(m, LexState::Init);
    match m.state {
        LexState::Init => lemma_init_keeps(m, g, p, q),
        LexState::Comment => {},
        LexState::Id => {
            match keyword(m.curr_token) {
                Some(kw) => lemma_push_keeps(m, kw, cp, p),
                None => lemma_push_keeps(m, TokenView::Id(m.curr_token), cp, p),
            }
            lemma_init_keeps(with_state(emit_word(m), LexState::Init), g, p, q);
        },
        LexState::Int => {
            if let Ok(v) = parse_u64_spec(m.curr_token) {
                lemma_push_keeps(m1, TokenView::Int(v), cp, p);
                lemma_init_keeps(with_token(push_tok(m1, TokenView::Int(v), cp), seq![]), g, p, q);
            }
        },
        LexState::Float => {
            lemma_push_keeps(m1, TokenView::Float(m.curr_token), cp, p);
            lemma_init_keeps(with_token(push_tok(m1, TokenView::Float(m.curr_token), cp), seq![]), g, p, q);
        },
        LexState::IntExponent => {
            if let Ok(v) = int_from_str_spec(m.curr_token) {
                lemma_push_keeps(m1, TokenView::Int(v), cp, p);
                lemma_init_keeps(with_token(push_tok(m1, TokenView::Int(v), cp), seq![]), g, p, q);
            }
        },
        LexState::FloatExponent => {
            lemma_push_keeps(m1, TokenView::Float(m.curr_token), cp, q);
        },
        LexState::LitStr => {
            lemma_push_keeps(m1, TokenView::LitStr(m.curr_token), cp, q);
        },
        LexState::Escape => {},
        LexState::Less => {
            lemma_push_keeps(m, TokenView::LessEq, cp, q);
            lemma_push_keeps(m, TokenView::LessLess, cp, q);
            lemma_push_keeps(m, TokenView::Less, cp, p);
            lemma_init_keeps(with_state(push_tok(m, TokenView::Less, cp), LexState::Init), g, p, q);
        },
        LexState::Greater => {
            lemma_push_keeps(m, TokenView::GreaterEq, cp, q);
            lemma_push_keeps(m, TokenView::GreaterGreater, cp, q);
            lemma_push_keeps(m, TokenView::Greater, cp, p);
            lemma_init_keeps(with_state(push_tok(m, TokenView::Greater, cp), LexState::Init), g, p, q);
        },
        LexState::Colon => {
            lemma_push_keeps(m, TokenView::ColonEq, cp, q);
        },
    }
}

proof fn lemma_run_line_keeps_order(m: LexView, line: usize, gs: Seq<(usize, Seq<char>)>, p: Pos)
    requires
        reading_inv(m, p),
        p.line < line,
        offsets_ordered(gs),
    ensures
        run_line(m, line, gs, p) matches (Outcome::Done(m2), p2) ==> {
            &&& reading_inv(m2, p2)
            &&& gs.len() == 0 ==> p2 == p
            &&& gs.len() > 0 ==> p2 == (Pos { line, column: (gs.last().0 + 1) as usize })
        },
    decreases gs.len(),
{
    if gs.len() > 0 {
        let pre = gs.drop_last();
        assert forall|i: int, j: int| 0 <= i <= j < pre.len() implies (#[trigger] pre[i]).0 <= (#[trigger] pre[j]).0 by {
            assert(gs[i].0 <= gs[j].0);
        }
        lemma_run_line_keeps_order(m, line, pre, p);
        if let (Outcome::Done(m1), p1) = run_line(m, line, pre, p) {
            let (off, g) = gs.last();
            if off != usize::MAX {
                let q = Pos { line, column: (off + 1) as usize };
                if pre.len() > 0 {
                    assert(gs[pre.len() - 1].0 <= gs[gs.len() - 1].0);
                }
                assert(pos_le(p1, q));
                lemma_step_keeps_order(m1, g, p1, q);
            }
        }
    }
}

proof fn lemma_run_lines_keeps_order(m: LexView, lines: Seq<Seq<(usize, Seq<char>)>>, p: Pos)
    requires
        reading_inv(m, p),
        p.line == 0,
        lines.len() <= usize::MAX,
        forall|i: int| 0 <= i < lines.len() ==> offsets_ordered(#[trigger] lines[i]),
    ensures
        run_lines(m, lines, p) matches (Outcome::Done(m2), p2) ==> reading_inv(m2, p2) && p2.line
            <= lines.len(),
    decreases lines.len(),
{
    if lines.len() > 0 {
        let pre = lines.drop_last();
        assert forall|i: int| 0 <= i < pre.len() implies offsets_ordered(#[trigger] pre[i]) by {
            assert(pre[i] == lines[i]);
        }
        lemma_run_lines_keeps_order(m, pre, p);
        if let (Outcome::Done(m1), p1) = run_lines(m, pre, p) {
            let s = line_start(m1);
            assert(offsets_ordered(lines[lines.len() - 1]));
            lemma_run_line_keeps_order(s, lines.len() as usize, lines.last(), p1);
        }
    }
}

/// Lexing from a fresh lexer, where each line's graphemes come in order of
/// their offsets: a successful lexing gives one place to each token, places
/// that never go back, and `Eof` as the last token and no other.
pub proof fn lemma_lex_places_ordered(lines: Seq<Seq<(usize, Seq<char>)>>)
    requires
        lines.len() <= usize::MAX,
        forall|i: int| 0 <= i < lines.len() ==> offsets_ordered(#[trigger] lines[i]),
    ensures
        lex_lines_spec(initial(), lines) matches Outcome::Done(m2) ==> {
            &&& m2.tokens.len() == m2.positions.len()
            &&& places_ordered(m2.positions)
            &&& eof_once_at_end(m2.tokens)
        },
{
    let p0 = Pos { line: 0, column: 0 };
    let m = initial();
    lemma_run_lines_keeps_order(m, lines, p0);
    lemma_lex_extends(m, lines);
    if let (Outcome::Done(m1), p) = run_lines(m, lines, p0) {
        let cp = m1.curr_pos;
        let b = match m1.state {
            LexState::Id => match keyword(m1.curr_token) {
                Some(kw) => push_tok(m1, kw, cp),
                None => with_token(push_tok(m1, TokenView::Id(m1.curr_token), cp), seq![]),
            },
            LexState::Int | LexState::IntExponent => match int_from_str_spec(m1.curr_token) {
                Ok(v) => push_tok(m1, TokenView::Int(v), cp),
                Err(_) => m1,
            },
            LexState::Float | LexState::FloatExponent => push_tok(m1, TokenView::Float(m1.curr_token), cp),
            LexState::Less => push_tok(m1, TokenView::Less, p),
            LexState::Greater => push_tok(m1, TokenView::Greater, p),
            _ => m1,
        };
        match m1.state {
            LexState::Id => match keyword(m1.curr_token) {
                Some(kw) => lemma_push_keeps(m1, kw, cp, p),
                None => lemma_push_keeps(m1, TokenView::Id(m1.curr_token), cp, p),
            },
            LexState::Int | LexState::IntExponent => if let Ok(v) = int_from_str_spec(m1.curr_token) {
                lemma_push_keeps(m1, TokenView::Int(v), cp, p);
            },
            LexState::Float | LexState::FloatExponent => lemma_push_keeps(m1, TokenView::Float(m1.curr_token), cp, p),
            LexState::Less => lemma_push_keeps(m1, TokenView::Less, p, p),
            LexState::Greater => lemma_push_keeps(m1, TokenView::Greater, p, p),
            _ => {},
        }
        if lex_lines_spec(m, lines) is Done {
            lemma_eof_last(b, p);
        }
    }
}

proof fn lemma_eof_last(b: LexView, p: Pos)
    requires
        places_ordered(b.positions),
        all_before(b.positions, p),
        no_eof(b.tokens),
    ensures
        places_ordered(push_tok(b, TokenView::Eof, p).positions),
        eof_once_at_end(push_tok(b, TokenView::Eof, p).tokens),
{
    let ps = push_tok(b, TokenView::Eof, p).positions;
    assert forall|i: int, j: int| 0 <= i <= j < ps.len() implies pos_le(#[trigger] ps[i], #[trigger] ps[j]) by {
        if j == ps.len() - 1 {
            if i < j {
                assert(pos_le(b.positions[i], p));
            }
        } else {
            assert(pos_le(b.positions[i], b.positions[j]));
        }
    }
    assert(push_tok(b, TokenView::Eof, p).tokens.drop_last() == b.tokens);
}

/// Whether character `c` cannot continue the token being read in state `st`
/// (a state that reads a token and hands on what cannot continue it).
pub open spec fn ends_token(st: LexState, c: char) -> bool {
    let digit = '0' <= c && c <= '9';
    let letter = ('a' <= c && c <= 'z') || ('A' <= c && c <= 'Z');
    match st {
        LexState::Id => !(c == '_' || letter || digit),
        LexState::Int => !digit && c != '.' && c != '_' && c != 'e',
        LexState::Float => !digit && c != '_' && c != 'e',
        LexState::IntExponent => !digit && c != '_',
        LexState::Less => c != '=' && c != '<',
        LexState::Greater => c != '=' && c != '>',
        _ => false,
    }
}

/// A token ends at the first character that cannot continue it, and that
/// character is then read as if the token had ended before it: reading such
/// a character `c` gives what reading a space and then `c` gives. So an
/// identifier, an integer (with or without an exponent), a float, `<` or `>`
/// followed directly by a symbol lexes as with a space between them. (An
/// exponent with no digits yet is an error at the character that ends it,
/// so there the two differ in the error's place.)
pub proof fn lemma_token_ends_like_space(m: LexView, c: char, pos: Pos, q: Pos)
    requires
        ends_token(m.state, c),
        m.state == LexState::IntExponent ==> !(m.curr_token.len() > 0 && m.curr_token.last() == 'e'),
    ensures
        step(m, seq![c], pos) == match step(m, seq![' '], q) {
            Outcome::Done(m1) => step(m1, seq![c], pos),
            other => other,
        },
{
    reveal(step);
    assert(single_char_of(seq![' ']) == Some(' '));
    assert(single_char_of(seq![c]) == Some(c));
    assert(all_ws(seq![' ']));
    assert(!all_word_char(seq![' '])) by {
        assert(!crate::text::is_word_char(seq![' '][0]));
    }
    if m.state == LexState::Id {
        assert(!all_word_char(seq![c])) by {
            assert(!crate::text::is_word_char(seq![c][0]));
        }
    }
}

/// An integer followed directly by a symbol gives the integer's token at the
/// integer's first character and then the symbol's token at the symbol, and
/// the lexer is ready for a new token.
pub proof fn lemma_int_then_symbol(m: LexView, c: char, pos: Pos)
    requires
        m.state == LexState::Int,
        parse_u64_spec(m.curr_token) is Ok,
        symbol_token(c) is Some,
    ensures
        step(m, seq![c], pos) == Outcome::Done(
            LexView {
                tokens: m.tokens + seq![TokenView::Int(parse_u64_spec(m.curr_token)->Ok_0), symbol_token(c)->Some_0],
                positions: m.positions + seq![m.curr_pos, pos],
                state: LexState::Init,
                curr_token: seq![],
                curr_pos: m.curr_pos,
            },
        ),
{
    reveal(step);
    let g = seq![c];
    assert(single_char_of(g) == Some(c));
    assert(!all_ws(g)) by {
        assert(!is_ascii_ws(g[0]));
    }
    assert(!all_word_start(g)) by {
        assert(!is_word_start(g[0]));
    }
    let v = parse_u64_spec(m.curr_token)->Ok_0;
    let t = symbol_token(c)->Some_0;
    assert(m.tokens.push(TokenView::Int(v)).push(t) == m.tokens + seq![TokenView::Int(v), t]);
    assert(m.positions.push(m.curr_pos).push(pos) == m.positions + seq![m.curr_pos, pos]);
}

/// Each of `lines` split into grapheme clusters with their byte offsets.
pub open spec fn segments_of(lines: Seq<String>) -> Seq<Seq<(usize, Seq<char>)>> {
    lines.map_values(|l: String| extended_grapheme_indices(l@))
}

/// The lines, each split into grapheme clusters with their byte offsets.
fn segment_lines<'a>(lines: &'a Vec<String>) -> (segs: Vec<Vec<(usize, &'a str)>>)
    ensures
        lines_view(segs@) == segments_of(lines@),
        segs@.len() <= usize::MAX,
        forall|k: int| 0 <= k < segs@.len() ==> offsets_ordered(#[trigger] lines_view(segs@)[k]),
{
    let mut segs: Vec<Vec<(usize, &str)>> = Vec::new();
    let mut i: usize = 0;
    while i < lines.len()
        invariant
            i <= lines@.len(),
            segs@.len() == i,
            forall|k: int| 0 <= k < i ==> #[trigger] lines_view(segs@)[k] == extended_grapheme_indices(lines@[k]@),
            forall|k: int| 0 <= k < i ==> offsets_ordered(#[trigger] lines_view(segs@)[k]),
        decreases lines@.len() - i,
    {
        let seg = grapheme_indices(lines[i].as_str());
        let ghost before = segs@;
        segs.push(seg);
        proof {
            assert(line_view(seg) =~= extended_grapheme_indices(lines@[i as int]@));
            assert forall|x: int, y: int| 0 <= x <= y < line_view(seg).len() implies (#[trigger] line_view(seg)[x]).0
                <= (#[trigger] line_view(seg)[y]).0 by {
                assert(seg@[x].0 <= seg@[y].0);
            }
            assert forall|k: int| 0 <= k < i + 1 implies #[trigger] lines_view(segs@)[k]
                == extended_grapheme_indices(lines@[k]@) by {
                assert(lines_view(segs@)[k] == line_view(segs@[k]));
                if k < i {
                    assert(segs@[k] == before[k]);
                    assert(lines_view(before)[k] == line_view(before[k]));
                }
            }
            assert forall|k: int| 0 <= k < i + 1 implies offsets_ordered(#[trigger] lines_view(segs@)[k]) by {
                assert(lines_view(segs@)[k] == line_view(segs@[k]));
                if k < i {
                    assert(segs@[k] == before[k]);
                    assert(lines_view(before)[k] == line_view(before[k]));
                }
            }
        }
        i = i + 1;
    }
    assert(lines_view(segs@) =~= segments_of(lines@));
    segs
}

proof fn lemma_segments_of_lines(input: Seq<char>, lines: Seq<String>)
    requires
        lines.map_values(|l: String| l@) == text_lines(input),
    ensures
        segments_of(lines) == segmented_lines(input),
{
    assert(lines.map_values(|l: String| l@).len() == lines.len());
    assert forall|k: int| 0 <= k < lines.len() implies #[trigger] segments_of(lines)[k] == segmented_lines(input)[k] by {
        assert(lines.map_values(|l: String| l@)[k] == lines[k]@);
    }
    assert(segments_of(lines) =~= segmented_lines(input));
}

impl Lex {
    /// One grapheme `gr` at `pos`, in whatever state the lexer is.
    fn step(&mut self, gr: &str, pos: Pos) -> (r: Option<Result<(), LexError>>)
        ensures
            agrees(step(old(self)@, gr@, pos), final(self)@, r),
    {
        reveal(step);
        match self.state {
            LexState::Init => self.lex_init(gr, pos),
            LexState::Id => self.lex_id(gr, pos),
            LexState::Int => self.lex_int(gr, pos),
            LexState::Float => self.lex_float(gr, pos),
            LexState::IntExponent => self.lex_int_exponent(gr, pos),
            LexState::FloatExponent => self.lex_float_exponent(gr, pos),
            LexState::LitStr => self.lex_lit_str(gr),
            LexState::Escape => self.lex_escape(gr),
            LexState::Less => self.lex_less(gr, pos),
            LexState::Greater => self.lex_greater(gr, pos),
            LexState::Colon => self.lex_colon(gr, pos),
            LexState::Comment => Some(Ok(())),
        }
    }

    /// The end of the input; `pos` is the place of the last grapheme.
    fn finish(&mut self, pos: Pos) -> (r: Option<Result<(), LexError>>)
        ensures
            agrees(finish(old(self)@, pos), final(self)@, r),
    {
        let p = self.curr_pos;
        match self.state {
            LexState::Init | LexState::Comment => {},
            LexState::Id => {
                match Self::check_for_keyword(self.curr_token.as_str()) {
                    Some(kw) => self.add_token(kw, p),
                    None => {
                        let word = take_string(&mut self.curr_token);
                        self.add_token(TokenType::Id(word), p);
                    },
                }
            },
            LexState::Int | LexState::IntExponent => {
                match Self::int_from_str(self.curr_token.as_str(), p) {
                    Ok(v) => self.add_token(TokenType::Int(v), p),
                    Err(_) => {
                        return None;
                    },
                }
            },
            LexState::Float | LexState::FloatExponent => {
                match float_check(&chars_of(self.curr_token.as_str())) {
                    Ok(()) => {
                        let text = self.curr_token.clone();
                        self.add_token(TokenType::Float(text), p);
                    },
                    Err(_) => {
                        return None;
                    },
                }
            },
            LexState::LitStr | LexState::Escape => {
                return Some(Err(LexError { kind: LexErrorKind::UnclosedStr, pos }));
            },
            LexState::Less => {
                self.add_token(TokenType::Less, pos);
            },
            LexState::Greater => {
                self.add_token(TokenType::Greater, pos);
            },
            LexState::Colon => {
                return Some(
                    Err(LexError { kind: LexErrorKind::InvalidToken(string_of_char(':')), pos }),
                );
            },
        }
        self.add_token(TokenType::Eof, pos);
        Some(Ok(()))
    }

    /// Lexes input that is already split into lines, each into graphemes with
    /// their byte offsets in the line. `None`: the lexer got stuck.
    pub fn lex_lines(&mut self, lines: &Vec<Vec<(usize, &str)>>) -> (r: Option<Result<(), LexError>>)
        ensures
            agrees(lex_lines_spec(old(self)@, lines_view(lines@)), final(self)@, r),
    {
        let ghost ls = lines_view(lines@);
        let ghost m0 = self@;
        let ghost p0 = Pos { line: 0, column: 0 };
        let nlines = lines.len();
        let mut pos = Pos { line: 0, column: 0 };
        let mut i: usize = 0;
        while i < nlines
            invariant
                i <= nlines == lines@.len(),
                ls == lines_view(lines@),
                p0 == (Pos { line: 0, column: 0 }),
                m0 == old(self)@,
                run_lines(m0, ls.take(i as int), p0) == (Outcome::Done(self@), pos),
            decreases nlines - i,
        {
            assert(ls.take(i + 1).drop_last() == ls.take(i as int));
            let ghost mi = self@;
            if matches!(self.state, LexState::Comment) {
                self.state = LexState::Init;
            }
            let line = &lines[i];
            let ghost start = self@;
            assert(start == line_start(mi));
            let ghost gs = line_view(*line);
            assert(ls.take(i + 1).last() == gs);
            let ghost pos0 = pos;
            let mut j: usize = 0;
            while j < line.len()
                invariant
                    j <= line@.len(),
                    i < nlines == lines@.len(),
                    ls == lines_view(lines@),
                    p0 == (Pos { line: 0, column: 0 }),
                m0 == old(self)@,
                    line == &lines@[i as int],
                    gs == line_view(*line),
                    gs == ls.take(i + 1).last(),
                    ls.take(i + 1).drop_last() == ls.take(i as int),
                    run_lines(m0, ls.take(i as int), p0) == (Outcome::Done(mi), pos0),
                    start == line_start(mi),
                    run_line(start, (i + 1) as usize, gs.take(j as int), pos0) == (
                        Outcome::Done(self@),
                        pos,
                    ),
                decreases line@.len() - j,
            {
                assert(gs.take(j + 1).drop_last() == gs.take(j as int));
                let (off, gr) = line[j];
                assert(gs.take(j + 1).last() == (off, gr@));
                if off == usize::MAX {
                    proof {
                        lemma_run_line_stops(start, (i + 1) as usize, gs, pos0, j + 1);
                        assert(run_lines(m0, ls.take(i + 1), p0) == run_line(start, (i + 1) as usize, gs, pos0));
                        lemma_run_lines_stops(m0, ls, p0, i + 1);
                    }
                    return None;
                }
                pos = Pos { line: i + 1, column: off + 1 };
                match self.step(gr, pos) {
                    Some(Ok(())) => {},
                    other => {
                        proof {
                            lemma_run_line_stops(start, (i + 1) as usize, gs, pos0, j + 1);
                            assert(run_lines(m0, ls.take(i + 1), p0) == run_line(start, (i + 1) as usize, gs, pos0));
                            lemma_run_lines_stops(m0, ls, p0, i + 1);
                        }
                        return other;
                    },
                }
                j = j + 1;
            }
            assert(gs.take(line@.len() as int) == gs);
            i = i + 1;
        }
        assert(ls.take(lines@.len() as int) == ls);
        self.finish(pos)
    }

    /// Lexes `input`, which must not get the lexer stuck.
    pub fn lex(&mut self, input: &str) -> (r: Result<(), LexError>)
        requires
            !(lex_spec(old(self)@, input@) is Stuck),
        ensures
            agrees(lex_spec(old(self)@, input@), final(self)@, Some(r)),
            old(self)@ == initial() && r is Ok ==> {
                &&& final(self)@.tokens.len() == final(self)@.positions.len()
                &&& places_ordered(final(self)@.positions)
                &&& eof_once_at_end(final(self)@.tokens)
            },
    {
        let lines = lines_of(input);
        let segs = segment_lines(&lines);
        proof {
            lemma_segments_of_lines(input@, lines@);
            assert(lines_view(segs@).len() == segs@.len());
            lemma_lex_places_ordered(lines_view(segs@));
        }
        match self.lex_lines(&segs) {
            Some(r) => r,
            None => Ok(()),
        }
    }

    /// Lexes `input` if that does not get the lexer stuck; otherwise leaves
    /// the lexer as it is and returns `None`.
    pub fn try_lex(&mut self, input: &str) -> (r: Option<Result<(), LexError>>)
        ensures
            r is None <==> lex_spec(old(self)@, input@) is Stuck,
            r is None ==> final(self)@ == old(self)@,
            r is Some ==> agrees(lex_spec(old(self)@, input@), final(self)@, r),
    {
        let mut probe = self.duplicate();
        let lines = lines_of(input);
        let segs = segment_lines(&lines);
        proof { lemma_segments_of_lines(input@, lines@); }
        match probe.lex_lines(&segs) {
            None => None,
            Some(_) => Some(self.lex(input)),
        }
    }
}

/// `line:column`.
pub open spec fn pos_text(p: Pos) -> Seq<char> {
    decimal(p.line as nat) + ":"@ + decimal(p.column as nat)
}

/// The message for a lexing error: its place, then what went wrong.
pub open spec fn lex_error_text(e: LexErrorView) -> Seq<char> {
    pos_text(e.pos) + match e.kind {
        LexErrorKindView::InvalidToken(s) => ": invalid token "@ + s,
        LexErrorKindView::ParseInt(k) => ": int parsing, "@ + int_error_message(k),
        LexErrorKindView::ParseFloat(k) => ": float parsing, "@ + float_error_message(k),
        LexErrorKindView::Overflow(s) => ": numerical value overflow "@ + s,
        LexErrorKindView::UnclosedStr => ": unclosed string"@,
    }
}

impl Pos {
    /// `line:column`, as the place is shown.
    pub fn describe(&self) -> (s: String)
        ensures
            s@ == pos_text(*self),
    {
        let mut s = decimal_string(self.line);
        s.append(":");
        s.append(decimal_string(self.column).as_str());
        s
    }
}

impl LexError {
    /// The message for this error, as it is shown.
    pub fn describe(&self) -> (s: String)
        ensures
            s@ == lex_error_text(self@),
    {
        let mut s = self.pos.describe();
        match &self.kind {
            LexErrorKind::InvalidToken(t) => {
                s.append(": invalid token ");
                s.append(t.as_str());
            },
            LexErrorKind::ParseInt(e) => {
                s.append(": int parsing, ");
                s.append(e.message());
            },
            LexErrorKind::ParseFloat(e) => {
                s.append(": float parsing, ");
                s.append(e.message());
            },
            LexErrorKind::Overflow(t) => {
                s.append(": numerical value overflow ");
                s.append(t.as_str());
            },
            LexErrorKind::UnclosedStr => {
                s.append(": unclosed string");
            },
        }
        s
    }
}

} // verus!
