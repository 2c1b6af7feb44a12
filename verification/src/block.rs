//! Blocks: their lexer and parser. This module also holds the first block
//! lexer, which reads identifiers, `#` includes, string literals, `=`, `;`
//! and the keyword `yield`.

pub mod lex;
pub mod parse;

use crate::segment::{extended_graphemes, graphemes};
use crate::text::{
    all_whitespace, all_word_char, all_word_chars, all_word_start, all_word_starts, all_ws,
    chars_of, push_char, same_chars, single_char, single_char_of, string_of_char, take_string,
};
use vstd::prelude::*;
use vstd::string::StringExecFns;

verus! {

/// Block lexer
///
/// The current implementation has quite bad debug output. The most we can output is, where the
/// start/end of the block that errs is.
pub struct Lex {
    tokens: Vec<TokenType>,
    state: LexState,
    curr_token: String,
}

#[derive(Debug, PartialEq)]
pub enum TokenType {
    Id(String),
    LitStr(String),
    // like an Id, but starts with a pound (#)
    Include(String),
    // :=
    ColonEq,
    // =
    Eq,
    // ;
    Semicolon,
    // keywords
    // "yield"
    Yield,
}

/// A token as a mathematical value.
pub enum TokenView {
    Id(Seq<char>),
    LitStr(Seq<char>),
    Include(Seq<char>),
    ColonEq,
    Eq,
    Semicolon,
    Yield,
}

impl View for TokenType {
    type V = TokenView;

    open spec fn view(&self) -> TokenView {
        match self {
            TokenType::Id(s) => TokenView::Id(s@),
            TokenType::LitStr(s) => TokenView::LitStr(s@),
            TokenType::Include(s) => TokenView::Include(s@),
            TokenType::ColonEq => TokenView::ColonEq,
            TokenType::Eq => TokenView::Eq,
            TokenType::Semicolon => TokenView::Semicolon,
            TokenType::Yield => TokenView::Yield,
        }
    }
}

/// Which kind of token the lexer is reading.
#[derive(Debug, PartialEq, Eq, Clone, Copy, Structural)]
pub enum LexState {
    Init,
    Id,
    Include,
    LitStr,
    /// During LitStr, meet a "\\"
    Escape,
}

#[derive(Debug, PartialEq)]
pub enum LexError {
    InvalidToken(String),
    UnclosedStr,
}

/// `LexError` as a mathematical value.
pub enum LexErrorView {
    InvalidToken(Seq<char>),
    UnclosedStr,
}

impl View for LexError {
    type V = LexErrorView;

    open spec fn view(&self) -> LexErrorView {
        match self {
            LexError::InvalidToken(s) => LexErrorView::InvalidToken(s@),
            LexError::UnclosedStr => LexErrorView::UnclosedStr,
        }
    }
}

/// `Lex` as a mathematical value.
pub struct LexView {
    pub tokens: Seq<TokenView>,
    pub state: LexState,
    pub curr_token: Seq<char>,
}

impl View for Lex {
    type V = LexView;

    closed spec fn view(&self) -> LexView {
        LexView {
            tokens: self.tokens@.map_values(|t: TokenType| t@),
            state: self.state,
            curr_token: self.curr_token@,
        }
    }
}

/// The outcome of lexing: the lexer afterwards, and whether it succeeded,
/// failed, or got stuck (`Stuck`: the input reaches something the lexer
/// cannot handle, such as `:` or a state that breaks its own assumptions;
/// the lexer is given as it was at that point).
pub enum Outcome {
    Done(LexView),
    Failed(LexView, LexErrorView),
    Stuck(LexView),
}

/// The lexer with `tok` appended.
pub open spec fn push_tok(m: LexView, tok: TokenView) -> LexView {
    LexView { tokens: m.tokens.push(tok), ..m }
}

/// The lexer in state `st` with `t` as the token being read.
pub open spec fn with(m: LexView, st: LexState, t: Seq<char>) -> LexView {
    LexView { state: st, curr_token: t, ..m }
}

/// The keyword token that `t` spells, if any.
pub open spec fn keyword(t: Seq<char>) -> Option<TokenView> {
    if t == seq!['y', 'i', 'e', 'l', 'd'] {
        Some(TokenView::Yield)
    } else {
        None
    }
}

/// One grapheme in state `Init`.
pub open spec fn init_step(m: LexView, g: Seq<char>) -> Outcome {
    if all_ws(g) {
        Outcome::Done(m)
    } else if all_word_start(g) {
        if m.curr_token.len() != 0 {
            Outcome::Stuck(m)
        } else {
            Outcome::Done(with(m, LexState::Id, m.curr_token + g))
        }
    } else {
        match single_char_of(g) {
            None => Outcome::Done(m),
            Some(c) => if c == '"' {
                Outcome::Done(with(m, LexState::LitStr, m.curr_token))
            } else if c == '#' {
                Outcome::Done(with(m, LexState::Include, m.curr_token))
            } else if c == '=' {
                Outcome::Done(push_tok(m, TokenView::Eq))
            } else if c == ':' {
                Outcome::Stuck(m)
            } else if c == ';' {
                Outcome::Done(push_tok(m, TokenView::Semicolon))
            } else {
                Outcome::Failed(m, LexErrorView::InvalidToken(seq![c]))
            },
        }
    }
}

/// The word read so far, emitted as a keyword or an identifier.
pub open spec fn emit_word(m: LexView) -> LexView {
    match keyword(m.curr_token) {
        Some(kw) => with(push_tok(m, kw), m.state, seq![]),
        None => with(push_tok(m, TokenView::Id(m.curr_token)), m.state, seq![]),
    }
}

/// One grapheme in state `Id`. A grapheme that is neither whitespace nor part
/// of a word is read in state `Init`, and the word read so far is kept.
pub open spec fn id_step(m: LexView, g: Seq<char>) -> Outcome {
    if all_ws(g) {
        Outcome::Done(emit_word(with(m, LexState::Init, m.curr_token)))
    } else if all_word_char(g) {
        if m.curr_token.len() == 0 {
            Outcome::Stuck(m)
        } else {
            Outcome::Done(with(m, m.state, m.curr_token + g))
        }
    } else {
        init_step(with(m, LexState::Init, m.curr_token), g)
    }
}

/// One grapheme in state `Include`: the name after `#` is read like an
/// identifier, starting with the first grapheme after `#`.
pub open spec fn include_step(m: LexView, g: Seq<char>) -> Outcome {
    if all_ws(g) {
        Outcome::Done(with(push_tok(m, TokenView::Include(m.curr_token)), LexState::Init, seq![]))
    } else if all_word_char(g) {
        Outcome::Done(with(m, m.state, m.curr_token + g))
    } else {
        init_step(with(m, LexState::Init, m.curr_token), g)
    }
}

/// One grapheme in state `LitStr`.
pub open spec fn lit_str_step(m: LexView, g: Seq<char>) -> Outcome {
    if single_char_of(g) == Some('"') {
        Outcome::Done(with(push_tok(m, TokenView::LitStr(m.curr_token)), LexState::Init, seq![]))
    } else if single_char_of(g) == Some('\\') {
        Outcome::Done(with(m, LexState::Escape, m.curr_token))
    } else {
        Outcome::Done(with(m, m.state, m.curr_token + g))
    }
}

/// One grapheme in state `Escape`: `\"` and `\\` stand for `"` and `\`; any
/// other grapheme is kept with the backslash before it.
pub open spec fn escape_step(m: LexView, g: Seq<char>) -> Outcome {
    let t = if single_char_of(g) == Some('"') {
        m.curr_token.push('"')
    } else if single_char_of(g) == Some('\\') {
        m.curr_token.push('\\')
    } else {
        m.curr_token.push('\\') + g
    };
    Outcome::Done(with(m, LexState::LitStr, t))
}

/// One grapheme.
#[verifier::opaque]
pub open spec fn step(m: LexView, g: Seq<char>) -> Outcome {
    match m.state {
        LexState::Init => init_step(m, g),
        LexState::Id => id_step(m, g),
        LexState::Include => include_step(m, g),
        LexState::LitStr => lit_str_step(m, g),
        LexState::Escape => escape_step(m, g),
    }
}

/// Graphemes one after the other.
pub open spec fn run(m: LexView, gs: Seq<Seq<char>>) -> Outcome
    decreases gs.len(),
{
    if gs.len() == 0 {
        Outcome::Done(m)
    } else {
        match run(m, gs.drop_last()) {
            Outcome::Done(m1) => step(m1, gs.last()),
            other => other,
        }
    }
}

/// The end of the input: the token being read is emitted.
pub open spec fn finish(m: LexView) -> Outcome {
    match m.state {
        LexState::Init => Outcome::Done(m),
        LexState::Id => match keyword(m.curr_token) {
            Some(kw) => Outcome::Done(push_tok(m, kw)),
            None => Outcome::Done(with(push_tok(m, TokenView::Id(m.curr_token)), m.state, seq![])),
        },
        LexState::Include => Outcome::Done(
            with(push_tok(m, TokenView::Include(m.curr_token)), m.state, seq![]),
        ),
        LexState::LitStr | LexState::Escape => Outcome::Failed(m, LexErrorView::UnclosedStr),
    }
}

/// Lexing a text given as its graphemes.
pub open spec fn lex_graphemes_spec(m: LexView, gs: Seq<Seq<char>>) -> Outcome {
    match run(m, gs) {
        Outcome::Done(m1) => finish(m1),
        other => other,
    }
}

/// Lexing `input`.
pub open spec fn lex_spec(m: LexView, input: Seq<char>) -> Outcome {
    lex_graphemes_spec(m, extended_graphemes(input))
}

/// Whether an exec lexer `after` and result `r` are what the outcome `o` says
/// (`None` for `Stuck`).
pub open spec fn agrees(o: Outcome, after: LexView, r: Option<Result<(), LexError>>) -> bool {
    match o {
        Outcome::Done(m) => after == m && r == Some(Ok::<(), LexError>(())),
        Outcome::Failed(m, e) => after == m && (r matches Some(Err(x)) && x@ == e),
        Outcome::Stuck(m) => after == m && r is None,
    }
}

/// The lexer before any input.
pub open spec fn initial() -> LexView {
    LexView { tokens: seq![], state: LexState::Init, curr_token: seq![] }
}

/// Once lexing has stopped (failed or got stuck), the rest changes nothing.
pub proof fn lemma_run_stops(m: LexView, gs: Seq<Seq<char>>, k: int)
    requires
        0 <= k <= gs.len(),
        !(run(m, gs.take(k)) is Done),
    ensures
        run(m, gs) == run(m, gs.take(k)),
    decreases gs.len() - k,
{
    if k < gs.len() {
        assert(gs.take(k + 1).drop_last() == gs.take(k));
        lemma_run_stops(m, gs, k + 1);
    } else {
        assert(gs.take(k) == gs);
    }
}

/// The lexer an outcome leaves, whatever the outcome.
pub open spec fn outcome_lexer(o: Outcome) -> LexView {
    match o {
        Outcome::Done(m) => m,
        Outcome::Failed(m, _) => m,
        Outcome::Stuck(m) => m,
    }
}

/// `m2` holds the tokens of `m` first, then perhaps more.
pub open spec fn extends(m: LexView, m2: LexView) -> bool {
    m.tokens.len() <= m2.tokens.len() && m2.tokens.subrange(0, m.tokens.len() as int) == m.tokens
}

proof fn lemma_push_extends(m: LexView, tok: TokenView)
    ensures
        extends(m, push_tok(m, tok)),
{
    assert(push_tok(m, tok).tokens.subrange(0, m.tokens.len() as int) == m.tokens);
}

proof fn lemma_extends_refl(m: LexView)
    ensures
        extends(m, m),
{
    assert(m.tokens.subrange(0, m.tokens.len() as int) == m.tokens);
}

proof fn lemma_extends_trans(a: LexView, b: LexView, c: LexView)
    requires
        extends(a, b),
        extends(b, c),
    ensures
        extends(a, c),
{
    assert(c.tokens.subrange(0, a.tokens.len() as int) == b.tokens.subrange(0, a.tokens.len() as int));
}

proof fn lemma_init_step_extends(m: LexView, g: Seq<char>)
    ensures
        extends(m, outcome_lexer(init_step(m, g))),
{
    lemma_extends_refl(m);
    lemma_push_extends(m, TokenView::Eq);
    lemma_push_extends(m, TokenView::Semicolon);
}

/// One grapheme only appends tokens.
pub proof fn lemma_step_extends(m: LexView, g: Seq<char>)
    ensures
        extends(m, outcome_lexer(step(m, g))),
{
    reveal(step);
    lemma_extends_refl(m);
    let i = with(m, LexState::Init, m.curr_token);
    lemma_extends_refl(i);
    lemma_init_step_extends(i, g);
    match keyword(m.curr_token) {
        Some(kw) => lemma_push_extends(i, kw),
        None => lemma_push_extends(i, TokenView::Id(m.curr_token)),
    }
    lemma_push_extends(m, TokenView::Include(m.curr_token));
    lemma_push_extends(m, TokenView::LitStr(m.curr_token));
}

proof fn lemma_run_extends(m: LexView, gs: Seq<Seq<char>>)
    ensures
        extends(m, outcome_lexer(run(m, gs))),
    decreases gs.len(),
{
    if gs.len() == 0 {
        lemma_extends_refl(m);
    } else {
        lemma_run_extends(m, gs.drop_last());
        if let Outcome::Done(m1) = run(m, gs.drop_last()) {
            lemma_step_extends(m1, gs.last());
            lemma_extends_trans(m, m1, outcome_lexer(step(m1, gs.last())));
        }
    }
}

/// Lexing only appends tokens: those read before stay as they were, whether
/// lexing succeeds, fails or gets stuck.
pub proof fn lemma_lex_extends(m: LexView, gs: Seq<Seq<char>>)
    ensures
        extends(m, outcome_lexer(lex_graphemes_spec(m, gs))),
{
    lemma_run_extends(m, gs);
    if let Outcome::Done(m1) = run(m, gs) {
        lemma_extends_refl(m1);
        match keyword(m1.curr_token) {
            Some(kw) => lemma_push_extends(m1, kw),
            None => lemma_push_extends(m1, TokenView::Id(m1.curr_token)),
        }
        lemma_push_extends(m1, TokenView::Include(m1.curr_token));
        lemma_extends_trans(m, m1, outcome_lexer(finish(m1)));
    }
}

/// The text `w`, one character to a grapheme.
pub open spec fn char_graphemes(w: Seq<char>) -> Seq<Seq<char>> {
    Seq::new(w.len(), |i: int| seq![w[i]])
}

/// An identifier: `_` or an ASCII letter, then any of `_`, ASCII letters and
/// ASCII digits.
pub open spec fn is_identifier(w: Seq<char>) -> bool {
    &&& w.len() > 0
    &&& w[0] == '_' || ('a' <= w[0] && w[0] <= 'z') || ('A' <= w[0] && w[0] <= 'Z')
    &&& forall|i: int| 0 <= i < w.len() ==> {
        let c = #[trigger] w[i];
        c == '_' || ('a' <= c && c <= 'z') || ('A' <= c && c <= 'Z') || ('0' <= c && c <= '9')
    }
}

proof fn lemma_identifier_prefix(w: Seq<char>, k: int)
    requires
        is_identifier(w),
        1 <= k <= w.len(),
    ensures
        run(initial(), char_graphemes(w).take(k)) == Outcome::Done(with(initial(), LexState::Id, w.take(k))),
    decreases k,
{
    reveal(step);
    let gs = char_graphemes(w);
    let g = seq![w[k - 1]];
    assert(gs.take(k).last() == g);
    assert(!all_ws(g)) by {
        assert(!crate::text::is_ascii_ws(g[0]));
    }
    if k == 1 {
        assert(gs.take(k).drop_last() == Seq::<Seq<char>>::empty());
        assert(all_word_start(g)) by {
            assert forall|i: int| 0 <= i < g.len() implies #[trigger] crate::text::is_word_start(g[i]) by {
                assert(g[i] == w[0]);
            }
        }
        assert(Seq::<char>::empty() + g == w.take(1));
        assert(run(initial(), gs.take(k).drop_last()) == Outcome::Done(initial()));
        assert(step(initial(), g) == Outcome::Done(with(initial(), LexState::Id, w.take(k))));
    } else {
        lemma_identifier_prefix(w, k - 1);
        assert(gs.take(k).drop_last() == gs.take(k - 1));
        assert(all_word_char(g)) by {
            assert forall|i: int| 0 <= i < g.len() implies #[trigger] crate::text::is_word_char(g[i]) by {
                assert(g[i] == w[k - 1]);
            }
        }
        assert(w.take(k - 1) + g == w.take(k));
        assert(step(with(initial(), LexState::Id, w.take(k - 1)), g) == Outcome::Done(with(initial(), LexState::Id, w.take(k))));
    }
}

/// The token of the identifier `w`: `yield` is the keyword, any other word
/// an identifier.
pub open spec fn word_token(w: Seq<char>) -> TokenView {
    if w == seq!['y', 'i', 'e', 'l', 'd'] {
        TokenView::Yield
    } else {
        TokenView::Id(w)
    }
}

/// An identifier runs over `_`, ASCII letters and ASCII digits: any
/// identifier followed by a whitespace character lexes from a fresh lexer to
/// that one token (`Yield` for `yield`, else an `Id` of the whole word); at
/// the end of the input it lexes to that one token too.
pub proof fn lemma_identifier_lexes(w: Seq<char>, ws: char)
    requires
        is_identifier(w),
        ws == ' ' || ws == '\t' || ws == '\n' || ws == '\r' || ws == '\x0C',
    ensures
        run(initial(), char_graphemes(w).push(seq![ws])) == Outcome::Done(
            LexView { tokens: seq![word_token(w)], state: LexState::Init, curr_token: seq![] },
        ),
        lex_graphemes_spec(initial(), char_graphemes(w)) matches Outcome::Done(m) && m.tokens == seq![word_token(w)],
{
    reveal(step);
    let gs = char_graphemes(w);
    lemma_identifier_prefix(w, w.len() as int);
    assert(gs.take(w.len() as int) == gs);
    assert(w.take(w.len() as int) == w);
    assert(gs.push(seq![ws]).drop_last() == gs);
    assert(all_ws(seq![ws])) by {
        assert forall|i: int| 0 <= i < seq![ws].len() implies #[trigger] crate::text::is_ascii_ws(seq![ws][i]) by {
            assert(seq![ws][i] == ws);
        }
    }
    assert(seq![word_token(w)] == Seq::<TokenView>::empty().push(word_token(w)));
}

/// Every character of `w` is `_`, an ASCII letter or an ASCII digit.
pub open spec fn word_chars_only(w: Seq<char>) -> bool {
    forall|i: int| 0 <= i < w.len() ==> {
        let c = #[trigger] w[i];
        c == '_' || ('a' <= c && c <= 'z') || ('A' <= c && c <= 'Z') || ('0' <= c && c <= '9')
    }
}

proof fn lemma_include_prefix(w: Seq<char>, k: int)
    requires
        word_chars_only(w),
        0 <= k <= w.len(),
    ensures
        run(initial(), (seq![seq!['#']] + char_graphemes(w)).take(k + 1)) == Outcome::Done(
            with(initial(), LexState::Include, w.take(k)),
        ),
    decreases k,
{
    reveal(step);
    let gs = seq![seq!['#']] + char_graphemes(w);
    if k == 0 {
        let h = seq!['#'];
        assert(gs.take(1).drop_last() == Seq::<Seq<char>>::empty());
        assert(gs.take(1).last() == h);
        assert(single_char_of(h) == Some('#'));
        assert(!all_ws(h)) by {
            assert(!crate::text::is_ascii_ws(h[0]));
        }
        assert(!all_word_start(h)) by {
            assert(!crate::text::is_word_start(h[0]));
        }
        assert(w.take(0) == Seq::<char>::empty());
        assert(run(initial(), gs.take(1).drop_last()) == Outcome::Done(initial()));
        assert(step(initial(), h) == Outcome::Done(with(initial(), LexState::Include, w.take(0))));
    } else {
        lemma_include_prefix(w, k - 1);
        let g = seq![w[k - 1]];
        assert(gs.take(k + 1).drop_last() == gs.take(k));
        assert(gs.take(k + 1).last() == g);
        assert(!all_ws(g)) by {
            assert(!crate::text::is_ascii_ws(g[0]));
        }
        assert(all_word_char(g)) by {
            assert forall|i: int| 0 <= i < g.len() implies #[trigger] crate::text::is_word_char(g[i]) by {
                assert(g[i] == w[k - 1]);
            }
        }
        assert(w.take(k - 1) + g == w.take(k));
        assert(step(with(initial(), LexState::Include, w.take(k - 1)), g) == Outcome::Done(
            with(initial(), LexState::Include, w.take(k)),
        ));
    }
}

/// An include is `#` followed by a name of `_`, ASCII letters and ASCII
/// digits, read from the character right after `#`: `#` and such a name,
/// followed by a whitespace character, lex from a fresh lexer to that one
/// `Include` token.
pub proof fn lemma_include_lexes(w: Seq<char>, ws: char)
    requires
        word_chars_only(w),
        ws == ' ' || ws == '\t' || ws == '\n' || ws == '\r' || ws == '\x0C',
    ensures
        run(initial(), (seq![seq!['#']] + char_graphemes(w)).push(seq![ws])) == Outcome::Done(
            LexView { tokens: seq![TokenView::Include(w)], state: LexState::Init, curr_token: seq![] },
        ),
{
    reveal(step);
    let gs = seq![seq!['#']] + char_graphemes(w);
    lemma_include_prefix(w, w.len() as int);
    assert(gs.take(w.len() + 1int) == gs);
    assert(w.take(w.len() as int) == w);
    assert(gs.push(seq![ws]).drop_last() == gs);
    assert(all_ws(seq![ws])) by {
        assert forall|i: int| 0 <= i < seq![ws].len() implies #[trigger] crate::text::is_ascii_ws(seq![ws][i]) by {
            assert(seq![ws][i] == ws);
        }
    }
    assert(seq![TokenView::Include(w)] == Seq::<TokenView>::empty().push(TokenView::Include(w)));
}

impl Default for Lex {
    fn default() -> (r: Self)
        ensures
            r@ == initial(),
    {
        let r = Self { tokens: Vec::new(), state: LexState::Init, curr_token: String::new() };
        assert(r@.tokens == Seq::<TokenView>::empty());
        r
    }
}

impl Lex {
    pub fn new() -> (r: Self)
        ensures
            r@ == initial(),
    {
        Self::default()
    }

    /// The tokens read so far.
    pub fn tokens(&self) -> (t: &Vec<TokenType>)
        ensures
            t@.map_values(|x: TokenType| x@) == self@.tokens,
    {
        &self.tokens
    }

    fn push_token(&mut self, tok: TokenType)
        ensures
            final(self)@ == push_tok(old(self)@, tok@),
    {
        self.tokens.push(tok);
        assert(self@.tokens == old(self)@.tokens.push(tok@));
    }

    fn token_is_empty(&self) -> (b: bool)
        ensures
            b == (self@.curr_token.len() == 0),
    {
        self.curr_token.as_str().is_empty()
    }

    fn lex_init(&mut self, gr: &str) -> (r: Option<Result<(), LexError>>)
        ensures
            agrees(init_step(old(self)@, gr@), final(self)@, r),
    {
        if all_whitespace(gr) {
            return Some(Ok(()));
        }
        if all_word_starts(gr) {
            if !self.token_is_empty() {
                return None;
            }
            self.state = LexState::Id;
            self.curr_token.append(gr);
            return Some(Ok(()));
        }
        if let Some(c) = single_char(gr) {
            if c == '"' {
                self.state = LexState::LitStr;
            } else if c == '#' {
                self.state = LexState::Include;
            } else if c == '=' {
                self.push_token(TokenType::Eq);
            } else if c == ':' {
                return None;
            } else if c == ';' {
                self.push_token(TokenType::Semicolon);
            } else {
                return Some(Err(LexError::InvalidToken(string_of_char(c))));
            }
        }
        Some(Ok(()))
    }

    /// Either return a keyword token, None
    fn check_for_keyword(token: &str) -> (r: Option<TokenType>)
        ensures
            match r {
                Some(t) => keyword(token@) == Some(t@),
                None => keyword(token@) is None,
            },
    {
        if same_chars(&chars_of(token), &vec!['y', 'i', 'e', 'l', 'd']) {
            Some(TokenType::Yield)
        } else {
            None
        }
    }

    /// Emits the word read so far as a keyword or an identifier.
    fn emit_word(&mut self)
        ensures
            final(self)@ == emit_word(old(self)@),
    {
        let word = take_string(&mut self.curr_token);
        match Self::check_for_keyword(word.as_str()) {
            Some(kw) => self.push_token(kw),
            None => self.push_token(TokenType::Id(word)),
        }
    }

    fn lex_id(&mut self, gr: &str) -> (r: Option<Result<(), LexError>>)
        ensures
            agrees(id_step(old(self)@, gr@), final(self)@, r),
    {
        if all_whitespace(gr) {
            self.state = LexState::Init;
            self.emit_word();
            return Some(Ok(()));
        }
        if all_word_chars(gr) {
            if self.token_is_empty() {
                return None;
            }
            self.curr_token.append(gr);
            return Some(Ok(()));
        }
        // otherwise, defer to Init
        self.state = LexState::Init;
        self.lex_init(gr)
    }

    fn lex_include(&mut self, gr: &str) -> (r: Option<Result<(), LexError>>)
        ensures
            agrees(include_step(old(self)@, gr@), final(self)@, r),
    {
        if all_whitespace(gr) {
            self.state = LexState::Init;
            let name = take_string(&mut self.curr_token);
            self.push_token(TokenType::Include(name));
            return Some(Ok(()));
        }
        if all_word_chars(gr) {
            self.curr_token.append(gr);
            return Some(Ok(()));
        }
        // otherwise, defer to Init
        self.state = LexState::Init;
        self.lex_init(gr)
    }

    fn lex_lit_str(&mut self, gr: &str) -> (r: Option<Result<(), LexError>>)
        ensures
            agrees(lit_str_step(old(self)@, gr@), final(self)@, r),
    {
        match single_char(gr) {
            Some('"') => {
                self.state = LexState::Init;
                let s = take_string(&mut self.curr_token);
                self.push_token(TokenType::LitStr(s));
                return Some(Ok(()));
            },
            Some('\\') => {
                self.state = LexState::Escape;
                return Some(Ok(()));
            },
            _ => {},
        }
        self.curr_token.append(gr);
        Some(Ok(()))
    }

    fn lex_escape(&mut self, gr: &str) -> (r: Option<Result<(), LexError>>)
        ensures
            agrees(escape_step(old(self)@, gr@), final(self)@, r),
    {
        match single_char(gr) {
            Some('"') => {
                push_char(&mut self.curr_token, '"');
            },
            Some('\\') => {
                push_char(&mut self.curr_token, '\\');
            },
            _ => {
                push_char(&mut self.curr_token, '\\');
                self.curr_token.append(gr);
            },
        }
        self.state = LexState::LitStr;
        Some(Ok(()))
    }

    fn step(&mut self, gr: &str) -> (r: Option<Result<(), LexError>>)
        ensures
            agrees(step(old(self)@, gr@), final(self)@, r),
    {
        reveal(step);
        match self.state {
            LexState::Init => self.lex_init(gr),
            LexState::Id => self.lex_id(gr),
            LexState::Include => self.lex_include(gr),
            LexState::LitStr => self.lex_lit_str(gr),
            LexState::Escape => self.lex_escape(gr),
        }
    }

    fn finish(&mut self) -> (r: Option<Result<(), LexError>>)
        ensures
            agrees(finish(old(self)@), final(self)@, r),
    {
        match self.state {
            LexState::Init => Some(Ok(())),
            LexState::Id => {
                if let Some(kw) = Self::check_for_keyword(self.curr_token.as_str()) {
                    self.push_token(kw);
                } else {
                    let word = take_string(&mut self.curr_token);
                    self.push_token(TokenType::Id(word));
                }
                Some(Ok(()))
            },
            LexState::Include => {
                let name = take_string(&mut self.curr_token);
                self.push_token(TokenType::Include(name));
                Some(Ok(()))
            },
            LexState::LitStr | LexState::Escape => Some(Err(LexError::UnclosedStr)),
        }
    }

    /// Lexes a text given as its graphemes. `None`: the lexer got stuck.
    pub fn lex_graphemes(&mut self, grs: &Vec<&str>) -> (r: Option<Result<(), LexError>>)
        ensures
            agrees(lex_graphemes_spec(old(self)@, grs@.map_values(|g: &str| g@)), final(self)@, r),
    {
        let ghost gs = grs@.map_values(|g: &str| g@);
        let ghost m0 = self@;
        let mut i: usize = 0;
        while i < grs.len()
            invariant
                i <= grs@.len(),
                gs == grs@.map_values(|g: &str| g@),
                m0 == old(self)@,
                run(m0, gs.take(i as int)) == Outcome::Done(self@),
            decreases grs@.len() - i,
        {
            assert(gs.take(i + 1).drop_last() == gs.take(i as int));
            assert(gs.take(i + 1).last() == grs@[i as int]@);
            match self.step(grs[i]) {
                Some(Ok(())) => {},
                other => {
                    proof { lemma_run_stops(m0, gs, i + 1); }
                    return other;
                },
            }
            i = i + 1;
        }
        assert(gs.take(grs@.len() as int) == gs);
        self.finish()
    }

    /// Lexes `input`, which must not get the lexer stuck.
    pub fn lex(&mut self, input: &str) -> (r: Result<(), LexError>)
        requires
            !(lex_spec(old(self)@, input@) is Stuck),
        ensures
            agrees(lex_spec(old(self)@, input@), final(self)@, Some(r)),
    {
        let grs = graphemes(input);
        match self.lex_graphemes(&grs) {
            Some(r) => r,
            None => Ok(()),
        }
    }

    /// A copy of this lexer.
    pub fn duplicate(&self) -> (r: Lex)
        ensures
            r@ == self@,
    {
        let mut tokens: Vec<TokenType> = Vec::new();
        let mut i: usize = 0;
        while i < self.tokens.len()
            invariant
                i <= self.tokens@.len(),
                tokens@.map_values(|x: TokenType| x@) == self.tokens@.take(i as int).map_values(
                    |x: TokenType| x@,
                ),
            decreases self.tokens@.len() - i,
        {
            let t = match &self.tokens[i] {
                TokenType::Id(s) => TokenType::Id(s.clone()),
                TokenType::LitStr(s) => TokenType::LitStr(s.clone()),
                TokenType::Include(s) => TokenType::Include(s.clone()),
                TokenType::ColonEq => TokenType::ColonEq,
                TokenType::Eq => TokenType::Eq,
                TokenType::Semicolon => TokenType::Semicolon,
                TokenType::Yield => TokenType::Yield,
            };
            tokens.push(t);
            assert(self.tokens@.take(i + 1) == self.tokens@.take(i as int).push(self.tokens@[i as int]));
            assert(self.tokens@.take(i + 1).map_values(|x: TokenType| x@)
                == self.tokens@.take(i as int).map_values(|x: TokenType| x@).push(t@));
            i = i + 1;
        }
        assert(self.tokens@.take(i as int) == self.tokens@);
        Lex { tokens, state: self.state, curr_token: self.curr_token.clone() }
    }

    /// Lexes `input` if that does not get the lexer stuck; otherwise leaves
    /// the lexer as it is and returns `None`.
    pub fn try_lex(&mut self, input: &str) -> (r: Option<Result<(), LexError>>)
        ensures
            r is None <==> lex_spec(old(self)@, input@) is Stuck,
            r is None ==> final(self)@ == old(self)@,
            r is Some ==> agrees(lex_spec(old(self)@, input@), final(self)@, r),
    {
        let mut probe = self.duplicate();
        let grs = graphemes(input);
        match probe.lex_graphemes(&grs) {
            None => None,
            Some(_) => Some(self.lex(input)),
        }
    }
}

} // verus!
