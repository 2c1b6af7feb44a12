//! Block parser: builds statements and expressions from the lexer's tokens.
//! Expressions are kept in one vector and refer to each other by index.

use super::lex::{Pos, TokenType, TokenView};
use vstd::prelude::*;

verus! {

pub struct Parse {
    stmts: Vec<StmtKind>,
    exprs: Vec<ExprKind>,
}

#[derive(Debug, PartialEq, Eq, Clone, Copy, Structural)]
pub enum StmtKind {
    /// expression-statement (e.g. `call_a_function();`), index to an element in `exprs`.
    Expr(usize),
    /// yield-statement (e.g. `yield call_a_function();`), index to an element in `exprs`.
    Yield(usize),
}

/// An expression. A float literal is kept as its text.
#[derive(Debug, PartialEq)]
pub enum ExprKind {
    /// `expr` indexes the `exprs` array.
    Unary { op: UnaryOp, expr: usize },
    Id(String),
    LitStr(String),
    Int(u64),
    Float(String),
}

/// An expression as a mathematical value.
pub enum ExprView {
    Unary { op: UnaryOp, expr: usize },
    Id(Seq<char>),
    LitStr(Seq<char>),
    Int(u64),
    Float(Seq<char>),
}

impl View for ExprKind {
    type V = ExprView;

    open spec fn view(&self) -> ExprView {
        match self {
            ExprKind::Unary { op, expr } => ExprView::Unary { op: *op, expr: *expr },
            ExprKind::Id(s) => ExprView::Id(s@),
            ExprKind::LitStr(s) => ExprView::LitStr(s@),
            ExprKind::Int(i) => ExprView::Int(*i),
            ExprKind::Float(s) => ExprView::Float(s@),
        }
    }
}

#[derive(Debug, PartialEq, Eq, Clone, Copy, Structural)]
pub enum UnaryOp {
    /// "or" keyword
    Not,
    /// '#' symbol
    Include,
}

/// A parse error and the place it refers to.
#[derive(Debug)]
pub struct ParseError {
    kind: ParseErrorKind,
    pos: Pos,
}

#[derive(Debug)]
pub enum ParseErrorKind {
    Unexpected { expect: &'static [&'static str], actual: TokenType },
    ExpectToken,
}

/// `ParseErrorKind` as a mathematical value.
pub enum ParseErrorKindView {
    Unexpected { expect: Seq<Seq<char>>, actual: TokenView },
    ExpectToken,
}

/// `ParseError` as a mathematical value.
pub struct ParseErrorView {
    pub kind: ParseErrorKindView,
    pub pos: Pos,
}

impl View for ParseErrorKind {
    type V = ParseErrorKindView;

    open spec fn view(&self) -> ParseErrorKindView {
        match self {
            ParseErrorKind::Unexpected { expect, actual } => ParseErrorKindView::Unexpected {
                expect: expect@.map_values(|s: &str| s@),
                actual: actual@,
            },
            ParseErrorKind::ExpectToken => ParseErrorKindView::ExpectToken,
        }
    }
}

impl View for ParseError {
    type V = ParseErrorView;

    closed spec fn view(&self) -> ParseErrorView {
        ParseErrorView { kind: self.kind@, pos: self.pos }
    }
}

/// `Parse` as a mathematical value.
pub struct ParseView {
    pub stmts: Seq<StmtKind>,
    pub exprs: Seq<ExprView>,
}

impl View for Parse {
    type V = ParseView;

    closed spec fn view(&self) -> ParseView {
        ParseView { stmts: self.stmts@, exprs: self.exprs@.map_values(|e: ExprKind| e@) }
    }
}

/// The outcome of parsing from the back of a token vector (and its vector of
/// places): the parser, tokens and places afterwards, and the result; or
/// `Stuck` when the tokens run out where a token must be, or the places run
/// out where an error needs one.
pub enum Parsed {
    Done(ParseView, Seq<TokenView>, Seq<Pos>, usize),
    Failed(ParseView, Seq<TokenView>, Seq<Pos>, ParseErrorView),
    Stuck,
}

/// The parser with `e` appended to the expressions.
pub open spec fn push_expr(m: ParseView, e: ExprView) -> ParseView {
    ParseView { exprs: m.exprs.push(e), ..m }
}

/// An `Unexpected` error.
pub open spec fn unexpected(expect: Seq<char>, actual: TokenView, pos: Pos) -> ParseErrorView {
    ParseErrorView {
        kind: ParseErrorKindView::Unexpected { expect: seq![expect], actual },
        pos,
    }
}

/// A primary expression read from the back of `toks`: an identifier, a
/// string, an integer or a float literal, or an expression in parentheses.
/// The result is the index in the expressions of the one read. An
/// error takes its place from the back of `poss`; places are not consumed
/// otherwise.
pub open spec fn primary(m: ParseView, toks: Seq<TokenView>, poss: Seq<Pos>) -> Parsed
    decreases toks.len(),
{
    if toks.len() == 0 {
        Parsed::Stuck
    } else {
        let rest = toks.drop_last();
        match toks.last() {
            TokenView::Id(s) => Parsed::Done(push_expr(m, ExprView::Id(s)), rest, poss, m.exprs.len() as usize),
            TokenView::LitStr(s) => Parsed::Done(push_expr(m, ExprView::LitStr(s)), rest, poss, m.exprs.len() as usize),
            TokenView::Int(i) => Parsed::Done(push_expr(m, ExprView::Int(i)), rest, poss, m.exprs.len() as usize),
            TokenView::Float(s) => Parsed::Done(push_expr(m, ExprView::Float(s)), rest, poss, m.exprs.len() as usize),
            TokenView::LParen => match primary(m, rest, poss) {
                Parsed::Done(m2, toks2, poss2, e) => if toks2.len() == 0 {
                    if poss2.len() == 0 {
                        Parsed::Stuck
                    } else {
                        Parsed::Failed(
                            m2,
                            toks2,
                            poss2.drop_last(),
                            ParseErrorView { kind: ParseErrorKindView::ExpectToken, pos: poss2.last() },
                        )
                    }
                } else if toks2.last() == TokenView::RParen {
                    Parsed::Done(m2, toks2.drop_last(), poss2, e)
                } else if poss2.len() == 0 {
                    Parsed::Stuck
                } else {
                    Parsed::Failed(
                        m2,
                        toks2.drop_last(),
                        poss2.drop_last(),
                        unexpected(seq![')'], toks2.last(), poss2.last()),
                    )
                },
                other => other,
            },
            tok => if poss.len() == 0 {
                Parsed::Stuck
            } else {
                Parsed::Failed(
                    m,
                    rest,
                    poss.drop_last(),
                    unexpected(seq!['e', 'x', 'p', 'r', 'e', 's', 's', 'i', 'o', 'n'], tok, poss.last()),
                )
            },
        }
    }
}

/// Whether the exec parser, tokens, places and result are what `o` says.
pub open spec fn parsed_agrees(
    o: Parsed,
    m: ParseView,
    toks: Seq<TokenView>,
    poss: Seq<Pos>,
    r: Result<usize, ParseError>,
) -> bool {
    match o {
        Parsed::Done(m1, t1, p1, e) => m == m1 && toks == t1 && poss == p1 && r == Ok::<usize, ParseError>(e),
        Parsed::Failed(m1, t1, p1, err) => m == m1 && toks == t1 && poss == p1 && (r matches Err(x) && x@ == err),
        Parsed::Stuck => false,
    }
}

/// The view of a token vector.
pub open spec fn tokens_view(v: Seq<TokenType>) -> Seq<TokenView> {
    v.map_values(|t: TokenType| t@)
}

fn expected_rparen() -> (r: &'static [&'static str])
    ensures
        r@.map_values(|s: &str| s@) == seq![seq![')']],
{
    let r: &'static [&'static str] = &[")"];
    proof {
        reveal_strlit(")");
        assert(r@.len() == 1);
        assert(r@[0]@ == seq![')']);
        assert(r@.map_values(|s: &str| s@) =~= seq![seq![')']]);
    }
    r
}

fn expected_expression() -> (r: &'static [&'static str])
    ensures
        r@.map_values(|s: &str| s@) == seq![seq!['e', 'x', 'p', 'r', 'e', 's', 's', 'i', 'o', 'n']],
{
    let r: &'static [&'static str] = &["expression"];
    proof {
        reveal_strlit("expression");
        assert(r@.len() == 1);
        assert(r@[0]@ == seq!['e', 'x', 'p', 'r', 'e', 's', 's', 'i', 'o', 'n']);
        assert(r@.map_values(|s: &str| s@) =~= seq![seq!['e', 'x', 'p', 'r', 'e', 's', 's', 'i', 'o', 'n']]);
    }
    r
}

/// A successful primary expression adds expressions and no statements, uses
/// up tokens from the back, leaves the places alone, and returns the index of
/// the last expression added, which is the one read.
pub proof fn lemma_primary_appends(m: ParseView, toks: Seq<TokenView>, poss: Seq<Pos>)
    ensures
        primary(m, toks, poss) matches Parsed::Done(m2, t2, p2, e) ==> {
            &&& m2.stmts == m.stmts
            &&& m.exprs.len() < m2.exprs.len()
            &&& m2.exprs.subrange(0, m.exprs.len() as int) == m.exprs
            &&& m2.exprs.len() <= usize::MAX ==> e == m2.exprs.len() - 1
            &&& t2.len() < toks.len()
            &&& t2 == toks.subrange(0, t2.len() as int)
            &&& p2 == poss
        },
    decreases toks.len(),
{
    if toks.len() > 0 {
        let rest = toks.drop_last();
        match toks.last() {
            TokenView::LParen => {
                lemma_primary_appends(m, rest, poss);
                if let Parsed::Done(m2, t2, p2, e) = primary(m, rest, poss) {
                    if t2.len() > 0 {
                        assert(t2.drop_last() == toks.subrange(0, t2.len() - 1));
                    }
                }
            },
            _ => {
                assert(push_expr(m, ExprView::Int(0)).exprs.subrange(0, m.exprs.len() as int) == m.exprs);
                match toks.last() {
                    TokenView::Id(s) => assert(push_expr(m, ExprView::Id(s)).exprs.subrange(0, m.exprs.len() as int) == m.exprs),
                    TokenView::LitStr(s) => assert(push_expr(m, ExprView::LitStr(s)).exprs.subrange(0, m.exprs.len() as int) == m.exprs),
                    TokenView::Int(i) => assert(push_expr(m, ExprView::Int(i)).exprs.subrange(0, m.exprs.len() as int) == m.exprs),
                    TokenView::Float(s) => assert(push_expr(m, ExprView::Float(s)).exprs.subrange(0, m.exprs.len() as int) == m.exprs),
                    _ => {},
                }
                assert(rest == toks.subrange(0, rest.len() as int));
            },
        }
    }
}

/// The expression that a literal token stands for: an identifier, a string,
/// an integer or a float literal, with the same text or value.
pub open spec fn literal_expr(t: TokenView) -> Option<ExprView> {
    match t {
        TokenView::Id(s) => Some(ExprView::Id(s)),
        TokenView::LitStr(s) => Some(ExprView::LitStr(s)),
        TokenView::Int(i) => Some(ExprView::Int(i)),
        TokenView::Float(s) => Some(ExprView::Float(s)),
        _ => None,
    }
}

/// A literal token on top is read as the expression it stands for, appended
/// at the end of the expressions, whose index is returned; the token is used
/// up and nothing else changes. A token on top that neither is a literal nor
/// opens parentheses is an `Unexpected` error that expects an expression and
/// names that token, at the place on top of the places.
pub proof fn lemma_primary_literal(m: ParseView, toks: Seq<TokenView>, poss: Seq<Pos>)
    requires
        toks.len() > 0,
    ensures
        literal_expr(toks.last()) matches Some(x) ==> primary(m, toks, poss) == Parsed::Done(
            ParseView { stmts: m.stmts, exprs: m.exprs.push(x) },
            toks.drop_last(),
            poss,
            m.exprs.len() as usize,
        ),
        literal_expr(toks.last()) is None && toks.last() != TokenView::LParen && poss.len() > 0
            ==> primary(m, toks, poss) == Parsed::Failed(
            m,
            toks.drop_last(),
            poss.drop_last(),
            ParseErrorView {
                kind: ParseErrorKindView::Unexpected {
                    expect: seq![seq!['e', 'x', 'p', 'r', 'e', 's', 's', 'i', 'o', 'n']],
                    actual: toks.last(),
                },
                pos: poss.last(),
            },
        ),
{
}

/// An expression in parentheses is closed by `)` and by nothing else: when
/// reading from a top `(` succeeds, the token right after the inner
/// expression is `)`; when the inner expression is followed by any other
/// token, the result is an `Unexpected` error that expects `)` and names that
/// token, at the place on top of the places.
pub proof fn lemma_paren_closed_by_rparen(m: ParseView, toks: Seq<TokenView>, poss: Seq<Pos>)
    requires
        toks.len() > 0,
        toks.last() == TokenView::LParen,
    ensures
        primary(m, toks, poss) matches Parsed::Done(m2, t2, p2, e) ==> {
            &&& t2.len() + 1 < toks.len()
            &&& toks[t2.len() as int] == TokenView::RParen
        },
        primary(m, toks.drop_last(), poss) matches Parsed::Done(m1, t1, p1, e1) ==> (
            t1.len() > 0 && t1.last() != TokenView::RParen && p1.len() > 0 ==> primary(m, toks, poss)
                == Parsed::Failed(
                m1,
                t1.drop_last(),
                p1.drop_last(),
                ParseErrorView {
                    kind: ParseErrorKindView::Unexpected { expect: seq![seq![')']], actual: t1.last() },
                    pos: p1.last(),
                },
            )),
{
    let rest = toks.drop_last();
    lemma_primary_appends(m, rest, poss);
    if let Parsed::Done(m1, t1, p1, e1) = primary(m, rest, poss) {
        if t1.len() > 0 {
            assert(t1[t1.len() - 1] == rest[t1.len() - 1]);
            assert(rest[t1.len() - 1] == toks[t1.len() - 1]);
        }
    }
}

impl Default for Parse {
    fn default() -> (r: Self)
        ensures
            r@.stmts == Seq::<StmtKind>::empty(),
            r@.exprs == Seq::<ExprView>::empty(),
    {
        let r = Parse { stmts: Vec::new(), exprs: Vec::new() };
        assert(r@.exprs == Seq::<ExprView>::empty());
        r
    }
}

impl ParseError {
    /// What went wrong.
    pub fn kind(&self) -> (k: &ParseErrorKind)
        ensures
            k@ == self@.kind,
    {
        &self.kind
    }

    /// Where it went wrong.
    pub fn pos(&self) -> (p: Pos)
        ensures
            p == self@.pos,
    {
        self.pos
    }
}

impl Parse {
    pub fn new() -> (r: Self)
        ensures
            r@.stmts == Seq::<StmtKind>::empty(),
            r@.exprs == Seq::<ExprView>::empty(),
    {
        Self::default()
    }

    /// The statements parsed so far.
    pub fn stmts(&self) -> (s: &Vec<StmtKind>)
        ensures
            s@ == self@.stmts,
    {
        &self.stmts
    }

    /// The expressions parsed so far.
    pub fn exprs(&self) -> (e: &Vec<ExprKind>)
        ensures
            e@.map_values(|x: ExprKind| x@) == self@.exprs,
    {
        &self.exprs
    }

    /// Appends `e`, returning its index.
    fn push_expr(&mut self, e: ExprKind) -> (n: usize)
        ensures
            final(self)@ == push_expr(old(self)@, e@),
            n == old(self)@.exprs.len(),
    {
        let n = self.exprs.len();
        self.exprs.push(e);
        assert(self@.exprs == old(self)@.exprs.push(e@));
        n
    }

    /// An expression read from the back of `tokens`.
    pub fn parse_expr(&mut self, tokens: &mut Vec<TokenType>, positions: &mut Vec<Pos>) -> (r: Result<usize, ParseError>)
        requires
            !(primary(old(self)@, tokens_view(old(tokens)@), old(positions)@) is Stuck),
        ensures
            parsed_agrees(
                primary(old(self)@, tokens_view(old(tokens)@), old(positions)@),
                final(self)@,
                tokens_view(final(tokens)@),
                final(positions)@,
                r,
            ),
        decreases old(tokens)@.len(), 1nat,
    {
        // Add more once we get more parse expr methods.
        self.parse_expr_primary(tokens, positions)
    }

    /// A primary expression read from the back of `tokens`.
    pub fn parse_expr_primary(&mut self, tokens: &mut Vec<TokenType>, positions: &mut Vec<Pos>) -> (r: Result<usize, ParseError>)
        requires
            !(primary(old(self)@, tokens_view(old(tokens)@), old(positions)@) is Stuck),
        ensures
            parsed_agrees(
                primary(old(self)@, tokens_view(old(tokens)@), old(positions)@),
                final(self)@,
                tokens_view(final(tokens)@),
                final(positions)@,
                r,
            ),
        decreases old(tokens)@.len(), 0nat,
    {
        let ghost toks0 = tokens_view(tokens@);
        let tok = tokens.pop();
        assert(tokens_view(tokens@) =~= toks0.drop_last());
        match tok {
            Some(TokenType::Id(s)) => {
                return Ok(self.push_expr(ExprKind::Id(s)));
            },
            Some(TokenType::LitStr(s)) => {
                return Ok(self.push_expr(ExprKind::LitStr(s)));
            },
            Some(TokenType::Int(i)) => {
                return Ok(self.push_expr(ExprKind::Int(i)));
            },
            Some(TokenType::Float(f)) => {
                return Ok(self.push_expr(ExprKind::Float(f)));
            },
            Some(TokenType::LParen) => {
                let expr = self.parse_expr(tokens, positions)?;
                let ghost toks2 = tokens_view(tokens@);
                let next = tokens.pop();
                proof {
                    if toks2.len() > 0 {
                        assert(tokens_view(tokens@) =~= toks2.drop_last());
                    }
                }
                match next {
                    Some(TokenType::RParen) => {
                        return Ok(expr);
                    },
                    None => {
                        let pos = positions.pop().unwrap();
                        return Err(ParseError { kind: ParseErrorKind::ExpectToken, pos });
                    },
                    Some(tok) => {
                        let pos = positions.pop().unwrap();
                        return Err(
                            ParseError {
                                kind: ParseErrorKind::Unexpected { expect: expected_rparen(), actual: tok },
                                pos,
                            },
                        );
                    },
                }
            },
            None => {
                return Ok(0);
            },
            Some(tok) => {
                let pos = positions.pop().unwrap();
                return Err(
                    ParseError {
                        kind: ParseErrorKind::Unexpected { expect: expected_expression(), actual: tok },
                        pos,
                    },
                );
            },
        }
    }
}

} // verus!
