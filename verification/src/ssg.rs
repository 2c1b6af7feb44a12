//! The page runner: copies text through verbatim, recognising `{{ ... }}`
//! blocks and the escapes `\{`, `\}` and `\\`.

use crate::segment::{extended_graphemes, graphemes};
use crate::text::{lemma_pieces_flatten, pieces_of, single_char, single_char_of, text_pieces};
use std::collections::HashMap;
use std::rc::Rc;
use vstd::prelude::*;
use vstd::string::StringExecFns;

verus! {

/// `std::io::Error`, declared so that a `RunnerError` can carry the error of
/// a failed read or write; nothing is known of its contents.
#[verifier::external_type_specification]
#[verifier::external_body]
pub struct ExIoError(std::io::Error);

/// Lexes, parses, and executes blocks; copy-paste verbatim otherwise.
pub struct Runner {
    curr_block: String,
    scopes: Vec<Scope>,
    lex_state: LexState,
}

/// A scope of variables.
pub struct Scope {
    vars: HashMap<Rc<str>, Rc<str>>,
    parent: Option<usize>,
}

impl Scope {
    /// A scope with no variables and no parent.
    pub fn new_root() -> (s: Self)
        ensures
            s@ == root_scope(),
    {
        Self { vars: HashMap::new(), parent: None }
    }
}

/// Think of the lexer as a state machine.
#[derive(Debug, PartialEq, Eq, Clone, Copy, Structural)]
pub enum LexState {
    /// No block funsies
    Init,
    /// Receive first "{"
    EnterBlock,
    /// Receive second "{"
    InBlock,
    /// Receive first "}"
    LeaveBlock,
    /// Basically, "\{" or "\}" or "\\".
    Escape,
}

/// Why running a page failed.
#[derive(Debug)]
pub enum RunnerError {
    Io(std::io::Error),
    UnclosedBlock { line: usize },
}

/// A scope as a mathematical value.
pub struct ScopeView {
    pub vars: Map<Rc<str>, Rc<str>>,
    pub parent: Option<usize>,
}

impl View for Scope {
    type V = ScopeView;

    closed spec fn view(&self) -> ScopeView {
        ScopeView { vars: self.vars@, parent: self.parent }
    }
}

/// The runner's state as a mathematical value: the text of the block being
/// read, the lexer state, and the scopes.
pub struct RunnerView {
    pub curr_block: Seq<char>,
    pub state: LexState,
    pub scopes: Seq<ScopeView>,
}

impl View for Runner {
    type V = RunnerView;

    closed spec fn view(&self) -> RunnerView {
        RunnerView {
            curr_block: self.curr_block@,
            state: self.lex_state,
            scopes: self.scopes@.map_values(|sc: Scope| sc@),
        }
    }
}

/// What one grapheme does: the runner's next state and the text it writes,
/// or `Stuck` at the end of a block, which the runner cannot execute yet.
pub enum Step {
    Next(RunnerView, Seq<char>),
    Stuck,
}

/// The runner in state `st` with block text `b`.
pub open spec fn rv(r: RunnerView, st: LexState, b: Seq<char>) -> RunnerView {
    RunnerView { curr_block: b, state: st, ..r }
}

/// One grapheme `g`. Outside a block, text is written as it is, a `{` that
/// opens no block included; `\{`, `\}` and `\\` stand for the character after
/// the backslash. Inside a block, text is kept as block text: a `}` that does
/// not close the block is kept too, and a `}\` stands for `}`.
pub open spec fn run_step(r: RunnerView, g: Seq<char>) -> Step {
    let lbrace = single_char_of(g) == Some('{');
    let rbrace = single_char_of(g) == Some('}');
    let bslash = single_char_of(g) == Some('\\');
    match r.state {
        LexState::Init => if lbrace {
            Step::Next(rv(r, LexState::EnterBlock, r.curr_block), seq![])
        } else if bslash {
            Step::Next(rv(r, LexState::Escape, r.curr_block), seq![])
        } else {
            Step::Next(r, g)
        },
        LexState::EnterBlock => if lbrace {
            Step::Next(rv(r, LexState::InBlock, r.curr_block), seq![])
        } else if bslash {
            Step::Next(rv(r, LexState::Escape, r.curr_block), seq!['{'])
        } else {
            Step::Next(rv(r, LexState::Init, r.curr_block), seq!['{'] + g)
        },
        LexState::Escape => {
            let out = if bslash || lbrace || rbrace { g } else { seq!['\\'] + g };
            Step::Next(rv(r, LexState::Init, r.curr_block), out)
        },
        LexState::InBlock => if rbrace {
            Step::Next(rv(r, LexState::LeaveBlock, r.curr_block), seq![])
        } else {
            Step::Next(rv(r, LexState::InBlock, r.curr_block + g), seq![])
        },
        LexState::LeaveBlock => if rbrace {
            Step::Stuck
        } else if bslash {
            Step::Next(rv(r, LexState::InBlock, r.curr_block.push('}')), seq![])
        } else {
            Step::Next(rv(r, LexState::InBlock, r.curr_block.push('}') + g), seq![])
        },
    }
}

/// Graphemes one after the other: the runner afterwards and the text written,
/// or, if it gets stuck, the runner and the text written up to that grapheme.
pub open spec fn run_graphemes(r: RunnerView, gs: Seq<Seq<char>>) -> (RunnerView, Seq<char>, bool)
    decreases gs.len(),
{
    if gs.len() == 0 {
        (r, seq![], true)
    } else {
        let (r1, out1, ok1) = run_graphemes(r, gs.drop_last());
        if !ok1 {
            (r1, out1, false)
        } else {
            match run_step(r1, gs.last()) {
                Step::Next(r2, out2) => (r2, out1 + out2, true),
                Step::Stuck => (r1, out1, false),
            }
        }
    }
}

/// Pieces of text (as `read_line` returns them) one after the other, each
/// split into graphemes.
pub open spec fn run_pieces(r: RunnerView, ps: Seq<Seq<char>>) -> (RunnerView, Seq<char>, bool)
    decreases ps.len(),
{
    if ps.len() == 0 {
        (r, seq![], true)
    } else {
        let (r1, out1, ok1) = run_pieces(r, ps.drop_last());
        if !ok1 {
            (r1, out1, false)
        } else {
            let (r2, out2, ok2) = run_graphemes(r1, extended_graphemes(ps.last()));
            (r2, out1 + out2, ok2)
        }
    }
}

/// The end of the input after `rows` lines: a block still open is an error.
pub open spec fn unclosed_at_end(r: RunnerView) -> bool {
    r.state == LexState::InBlock
}

/// What is still to be written at the end of the input: a `{` that opened no
/// block, or a `\` that escaped nothing.
pub open spec fn pending_text(r: RunnerView) -> Seq<char> {
    if r.state == LexState::EnterBlock {
        seq!['{']
    } else if r.state == LexState::Escape {
        seq!['\\']
    } else {
        seq![]
    }
}

/// The runner after the end of the input: pending text is written, so the
/// runner is outside any block again.
pub open spec fn finish_runner(r: RunnerView) -> RunnerView {
    if r.state == LexState::EnterBlock || r.state == LexState::Escape {
        rv(r, LexState::Init, r.curr_block)
    } else {
        r
    }
}

/// Whether the runner after grapheme `g` is `r1`, with `out1` written after
/// `out0`; `ok` is false when it got stuck (and then nothing changed).
pub open spec fn step_agrees(r0: RunnerView, g: Seq<char>, r1: RunnerView, out0: Seq<char>, out1: Seq<char>, ok: bool) -> bool {
    match run_step(r0, g) {
        Step::Next(r, o) => ok && r1 == r && out1 == out0 + o,
        Step::Stuck => !ok && r1 == r0 && out1 == out0,
    }
}

/// Text with no `{` and no `\`.
pub open spec fn plain_text(s: Seq<char>) -> bool {
    forall|i: int| 0 <= i < s.len() ==> #[trigger] s[i] != '{' && s[i] != '\\'
}

/// A scope with no variables and no parent.
pub open spec fn root_scope() -> ScopeView {
    ScopeView { vars: Map::empty(), parent: None }
}

/// The runner before any input: not in a block, with the root scope.
pub open spec fn initial_runner() -> RunnerView {
    RunnerView { curr_block: seq![], state: LexState::Init, scopes: seq![root_scope()] }
}

impl Default for Runner {
    fn default() -> (r: Self)
        ensures
            r@ == initial_runner(),
    {
        let mut scopes = Vec::new();
        scopes.push(Scope::new_root());
        let r = Self { curr_block: String::new(), scopes, lex_state: LexState::Init };
        assert(r@.scopes =~= seq![root_scope()]);
        return r;
    }
}

/// Appends one character to `out`.
fn emit_char(out: &mut String, c: char)
    ensures
        final(out)@ == old(out)@ + seq![c],
{
    crate::text::push_char(out, c);
    assert(old(out)@.push(c) == old(out)@ + seq![c]);
}

impl Runner {
    pub fn new() -> (r: Self)
        ensures
            r@ == initial_runner(),
    {
        Self::default()
    }

    /// The text of the block being read.
    pub fn curr_block(&self) -> (b: &str)
        ensures
            b@ == self@.curr_block,
    {
        self.curr_block.as_str()
    }

    /// The lexer state.
    pub fn state(&self) -> (s: LexState)
        ensures
            s == self@.state,
    {
        self.lex_state
    }

    fn lex_init(&mut self, gr: &str, output: &mut String)
        requires
            old(self)@.state == LexState::Init,
        ensures
            step_agrees(old(self)@, gr@, final(self)@, old(output)@, final(output)@, true),
    {
        match single_char(gr) {
            Some('{') => {
                self.lex_state = LexState::EnterBlock;
            },
            Some('\\') => {
                self.lex_state = LexState::Escape;
            },
            _ => {
                output.append(gr);
            },
        }
    }

    fn lex_enter_block(&mut self, gr: &str, output: &mut String)
        requires
            old(self)@.state == LexState::EnterBlock,
        ensures
            step_agrees(old(self)@, gr@, final(self)@, old(output)@, final(output)@, true),
    {
        match single_char(gr) {
            Some('{') => self.lex_state = LexState::InBlock,
            Some('\\') => {
                emit_char(output, '{');
                self.lex_state = LexState::Escape;
            },
            _ => {
                emit_char(output, '{');
                output.append(gr);
                self.lex_state = LexState::Init;
                assert(final(output)@ == old(output)@ + (seq!['{'] + gr@));
            },
        }
    }

    fn lex_escape(&mut self, gr: &str, output: &mut String)
        requires
            old(self)@.state == LexState::Escape,
        ensures
            step_agrees(old(self)@, gr@, final(self)@, old(output)@, final(output)@, true),
    {
        match single_char(gr) {
            Some('\\') => {
                emit_char(output, '\\');
                assert(gr@ =~= seq!['\\']);
            },
            Some('{') => {
                emit_char(output, '{');
                assert(gr@ =~= seq!['{']);
            },
            // technically this one is not needed, but it's just for symmetry with the escape above
            Some('}') => {
                emit_char(output, '}');
                assert(gr@ =~= seq!['}']);
            },
            _ => {
                emit_char(output, '\\');
                output.append(gr);
                assert(final(output)@ == old(output)@ + (seq!['\\'] + gr@));
            },
        }
        self.lex_state = LexState::Init;
    }

    fn lex_in_block(&mut self, gr: &str, output: &mut String)
        requires
            old(self)@.state == LexState::InBlock,
        ensures
            step_agrees(old(self)@, gr@, final(self)@, old(output)@, final(output)@, true),
    {
        match single_char(gr) {
            Some('}') => {
                self.lex_state = LexState::LeaveBlock;
            },
            _ => {
                self.curr_block.append(gr);
            },
        }
        assert(final(output)@ == old(output)@ + Seq::<char>::empty());
    }

    /// `false`: the block is complete, and the runner cannot execute blocks
    /// yet; nothing changes.
    fn lex_leave_block(&mut self, gr: &str, output: &mut String) -> (ok: bool)
        requires
            old(self)@.state == LexState::LeaveBlock,
        ensures
            step_agrees(old(self)@, gr@, final(self)@, old(output)@, final(output)@, ok),
    {
        match single_char(gr) {
            Some('}') => {
                return false;
            },
            Some('\\') => {
                crate::text::push_char(&mut self.curr_block, '}');
                self.lex_state = LexState::InBlock;
            },
            _ => {
                crate::text::push_char(&mut self.curr_block, '}');
                self.curr_block.append(gr);
                self.lex_state = LexState::InBlock;
            },
        }
        assert(output@ == old(output)@ + Seq::<char>::empty());
        true
    }

    /// One grapheme, in whatever state the runner is.
    pub fn step(&mut self, gr: &str, output: &mut String) -> (ok: bool)
        ensures
            step_agrees(old(self)@, gr@, final(self)@, old(output)@, final(output)@, ok),
    {
        match self.lex_state {
            LexState::Init => {
                self.lex_init(gr, output);
                true
            },
            LexState::EnterBlock => {
                self.lex_enter_block(gr, output);
                true
            },
            LexState::InBlock => {
                self.lex_in_block(gr, output);
                true
            },
            LexState::LeaveBlock => self.lex_leave_block(gr, output),
            LexState::Escape => {
                self.lex_escape(gr, output);
                true
            },
        }
    }
}

/// Text without `{` or `\` read from the start (not in a block) is written
/// out unchanged, and leaves the runner as it was.
pub proof fn lemma_verbatim(r: RunnerView, gs: Seq<Seq<char>>)
    requires
        r.state == LexState::Init,
        plain_text(gs.flatten()),
    ensures
        run_graphemes(r, gs) == (r, gs.flatten(), true),
    decreases gs.len(),
{
    if gs.len() > 0 {
        let init = gs.drop_last();
        let g = gs.last();
        assert(gs == init.push(g));
        init.lemma_flatten_push(g);
        assert(gs.flatten() == init.flatten() + g);
        assert forall|i: int| 0 <= i < init.flatten().len() implies #[trigger] init.flatten()[i]
            != '{' && init.flatten()[i] != '\\' by {
            assert(gs.flatten()[i] == init.flatten()[i]);
        }
        lemma_verbatim(r, init);
        if g.len() == 1 {
            assert(gs.flatten()[init.flatten().len() as int] == g[0]);
        }
    }
}

/// The pieces of a text that is free of `{` and `\` are free of them too.
pub proof fn lemma_plain_pieces(ps: Seq<Seq<char>>)
    requires
        plain_text(ps.flatten()),
    ensures
        forall|i: int| 0 <= i < ps.len() ==> plain_text(#[trigger] ps[i]),
    decreases ps.len(),
{
    if ps.len() > 0 {
        let init = ps.drop_last();
        assert(ps == init.push(ps.last()));
        init.lemma_flatten_push(ps.last());
        assert forall|i: int| 0 <= i < init.flatten().len() implies #[trigger] init.flatten()[i]
            != '{' && init.flatten()[i] != '\\' by {
            assert(ps.flatten()[i] == init.flatten()[i]);
        }
        lemma_plain_pieces(init);
        assert forall|j: int| 0 <= j < ps.last().len() implies #[trigger] ps.last()[j] != '{'
            && ps.last()[j] != '\\' by {
            assert(ps.flatten()[init.flatten().len() + j] == ps.last()[j]);
        }
        assert forall|i: int| 0 <= i < ps.len() implies plain_text(#[trigger] ps[i]) by {
            if i < ps.len() - 1 {
                assert(ps[i] == init[i]);
            }
        }
    }
}

/// Once the runner got stuck, the remaining graphemes change nothing.
proof fn lemma_run_graphemes_stops(r: RunnerView, gs: Seq<Seq<char>>, k: int)
    requires
        0 <= k <= gs.len(),
        !run_graphemes(r, gs.take(k)).2,
    ensures
        run_graphemes(r, gs) == run_graphemes(r, gs.take(k)),
    decreases gs.len() - k,
{
    if k < gs.len() {
        assert(gs.take(k + 1).drop_last() == gs.take(k));
        lemma_run_graphemes_stops(r, gs, k + 1);
    } else {
        assert(gs.take(k) == gs);
    }
}

/// Once the runner got stuck, the remaining pieces change nothing.
proof fn lemma_run_pieces_stops(r: RunnerView, ps: Seq<Seq<char>>, k: int)
    requires
        0 <= k <= ps.len(),
        !run_pieces(r, ps.take(k)).2,
    ensures
        run_pieces(r, ps) == run_pieces(r, ps.take(k)),
    decreases ps.len() - k,
{
    if k < ps.len() {
        assert(ps.take(k + 1).drop_last() == ps.take(k));
        lemma_run_pieces_stops(r, ps, k + 1);
    } else {
        assert(ps.take(k) == ps);
    }
}

/// Outside a block (and while deciding whether one starts) no block text is
/// held.
pub open spec fn block_text_only_in_block(r: RunnerView) -> bool {
    (r.state == LexState::Init || r.state == LexState::EnterBlock || r.state == LexState::Escape)
        ==> r.curr_block.len() == 0
}

/// Every grapheme keeps the scopes, and keeps block text only
/// inside a block.
pub proof fn lemma_step_keeps_invariants(r: RunnerView, g: Seq<char>)
    requires
        block_text_only_in_block(r),
    ensures
        run_step(r, g) matches Step::Next(r2, _) ==> block_text_only_in_block(r2) && r2.scopes
            == r.scopes,
{
}

/// Graphemes keep the scopes, and keep block text only inside a
/// block.
pub proof fn lemma_run_keeps_invariants(r: RunnerView, gs: Seq<Seq<char>>)
    requires
        block_text_only_in_block(r),
    ensures
        block_text_only_in_block(run_graphemes(r, gs).0),
        run_graphemes(r, gs).0.scopes == r.scopes,
    decreases gs.len(),
{
    if gs.len() > 0 {
        lemma_run_keeps_invariants(r, gs.drop_last());
        let (r1, _, ok1) = run_graphemes(r, gs.drop_last());
        if ok1 {
            lemma_step_keeps_invariants(r1, gs.last());
        }
    }
}

/// A fresh runner holds no block text.
pub proof fn lemma_initial_runner_invariant()
    ensures
        block_text_only_in_block(initial_runner()),
{
}

/// Whole texts keep the scopes, and keep block text only inside a block.
pub proof fn lemma_pieces_keep_invariants(r: RunnerView, ps: Seq<Seq<char>>)
    requires
        block_text_only_in_block(r),
    ensures
        block_text_only_in_block(run_pieces(r, ps).0),
        run_pieces(r, ps).0.scopes == r.scopes,
    decreases ps.len(),
{
    if ps.len() > 0 {
        lemma_pieces_keep_invariants(r, ps.drop_last());
        let (r1, _, ok1) = run_pieces(r, ps.drop_last());
        if ok1 {
            lemma_run_keeps_invariants(r1, extended_graphemes(ps.last()));
        }
    }
}

/// The grapheme `{`.
pub open spec fn is_lbrace(g: Seq<char>) -> bool {
    single_char_of(g) == Some('{')
}

/// The grapheme `}`.
pub open spec fn is_rbrace(g: Seq<char>) -> bool {
    single_char_of(g) == Some('}')
}

/// The grapheme `\`.
pub open spec fn is_bslash(g: Seq<char>) -> bool {
    single_char_of(g) == Some('\\')
}

/// Whether grapheme `b` may follow grapheme `a` in text that is copied as it
/// is: a `{` opens no block (it is followed by neither `{` nor `\`), and a
/// `\` escapes nothing (it is followed by none of `{`, `}` and `\`).
pub open spec fn may_follow(a: Seq<char>, b: Seq<char>) -> bool {
    &&& is_lbrace(a) ==> !is_lbrace(b) && !is_bslash(b)
    &&& is_bslash(a) ==> !is_lbrace(b) && !is_rbrace(b) && !is_bslash(b)
}

/// Graphemes that the runner copies as they are: every neighbouring pair
/// may follow one another.
pub open spec fn literal_graphemes(gs: Seq<Seq<char>>) -> bool {
    forall|i: int, j: int| #![trigger gs[i], gs[j]] 0 <= i && j == i + 1 && j < gs.len() ==> may_follow(gs[i], gs[j])
}

/// The runner after graphemes of literal text, whose last grapheme is `g`:
/// waiting for what follows a `{` or `\`, or as it was.
pub open spec fn after_literal(r: RunnerView, last: Seq<char>) -> RunnerView {
    if is_lbrace(last) {
        rv(r, LexState::EnterBlock, r.curr_block)
    } else if is_bslash(last) {
        rv(r, LexState::Escape, r.curr_block)
    } else {
        r
    }
}

proof fn lemma_single(g: Seq<char>, c: char)
    requires
        single_char_of(g) == Some(c),
    ensures
        g == seq![c],
{
    assert(g =~= seq![c]);
}

proof fn lemma_literal_prefix(r: RunnerView, gs: Seq<Seq<char>>, k: int)
    requires
        r.state == LexState::Init,
        literal_graphemes(gs),
        0 <= k <= gs.len(),
    ensures
        k == 0 ==> run_graphemes(r, gs.take(k)) == (r, Seq::<char>::empty(), true),
        k > 0 && (is_lbrace(gs[k - 1]) || is_bslash(gs[k - 1])) ==> run_graphemes(r, gs.take(k))
            == (after_literal(r, gs[k - 1]), gs.take(k - 1).flatten(), true),
        k > 0 && !(is_lbrace(gs[k - 1]) || is_bslash(gs[k - 1])) ==> run_graphemes(r, gs.take(k))
            == (r, gs.take(k).flatten(), true),
    decreases k,
{
    if k > 0 {
        lemma_literal_prefix(r, gs, k - 1);
        let g = gs[k - 1];
        let pre = gs.take(k - 1);
        assert(gs.take(k).drop_last() == pre);
        assert(gs.take(k).last() == g);
        assert(gs.take(k) == pre.push(g));
        pre.lemma_flatten_push(g);
        if k > 1 {
            let a = gs[k - 2];
            assert(may_follow(gs[k - 2], gs[k - 1]));
            assert(pre.take(k - 2) == gs.take(k - 2));
            assert(pre == gs.take(k - 2).push(a));
            gs.take(k - 2).lemma_flatten_push(a);
            if is_lbrace(a) {
                lemma_single(a, '{');
                assert(gs.take(k - 2).flatten() + (seq!['{'] + g) == pre.flatten() + g);
            } else if is_bslash(a) {
                lemma_single(a, '\\');
                assert(gs.take(k - 2).flatten() + (seq!['\\'] + g) == pre.flatten() + g);
            }
        }
    }
}

/// Text in which every `{` opens no block and every `\` escapes nothing is
/// copied as it is: read from outside any block, its graphemes are written
/// out unchanged, except a `{` or `\` at the very end, which the end of the
/// input writes; and the runner is outside any block again.
pub proof fn lemma_literal_copied(r: RunnerView, gs: Seq<Seq<char>>)
    requires
        r.state == LexState::Init,
        literal_graphemes(gs),
    ensures
        ({
            let (r2, out, ok) = run_graphemes(r, gs);
            &&& ok
            &&& out + pending_text(r2) == gs.flatten()
            &&& finish_runner(r2) == r
            &&& (gs.len() == 0 || !(is_lbrace(gs.last()) || is_bslash(gs.last()))) ==> r2 == r
                && out == gs.flatten()
        }),
{
    lemma_literal_prefix(r, gs, gs.len() as int);
    assert(gs.take(gs.len() as int) == gs);
    if gs.len() > 0 {
        let g = gs.last();
        let pre = gs.drop_last();
        assert(gs == pre.push(g));
        pre.lemma_flatten_push(g);
        if is_lbrace(g) {
            lemma_single(g, '{');
        } else if is_bslash(g) {
            lemma_single(g, '\\');
        }
    } else {
        assert(gs.flatten() == Seq::<char>::empty());
    }
}

/// The graphemes of the text that escapes `c`: a `\` before `{`, `}` and `\`.
pub open spec fn escaped(c: char) -> Seq<Seq<char>> {
    if c == '{' || c == '}' || c == '\\' {
        seq![seq!['\\'], seq![c]]
    } else {
        seq![seq![c]]
    }
}

/// The graphemes of the text that escapes every character of `cs`, one
/// character to a grapheme.
pub open spec fn escape_all(cs: Seq<char>) -> Seq<Seq<char>>
    decreases cs.len(),
{
    if cs.len() == 0 {
        seq![]
    } else {
        escape_all(cs.drop_last()) + escaped(cs.last())
    }
}

proof fn lemma_run_concat(r: RunnerView, a: Seq<Seq<char>>, b: Seq<Seq<char>>)
    requires
        run_graphemes(r, a).2,
    ensures
        run_graphemes(r, a + b) == ({
            let (ra, oa, _) = run_graphemes(r, a);
            let (rb, ob, kb) = run_graphemes(ra, b);
            (rb, oa + ob, kb)
        }),
    decreases b.len(),
{
    if b.len() == 0 {
        assert(a + b == a);
        let (ra, oa, _) = run_graphemes(r, a);
        assert(oa + Seq::<char>::empty() == oa);
    } else {
        lemma_run_concat(r, a, b.drop_last());
        assert((a + b).drop_last() == a + b.drop_last());
        assert((a + b).last() == b.last());
        let (ra, oa, _) = run_graphemes(r, a);
        let (r1, o1, k1) = run_graphemes(ra, b.drop_last());
        if k1 {
            match run_step(r1, b.last()) {
                Step::Next(r2, o2) => {
                    assert(oa + o1 + o2 == oa + (o1 + o2));
                },
                Step::Stuck => {},
            }
        }
    }
}

/// A `{` that opens no block because a `\` follows it is written as it is,
/// and the escape that follows it does what it does on its own: reading `{`,
/// `\` and then any graphemes from outside a block writes `{` followed by
/// what reading `\` and those graphemes writes, and ends the same way.
pub proof fn lemma_lbrace_then_escape(r: RunnerView, gs: Seq<Seq<char>>)
    requires
        r.state == LexState::Init,
    ensures
        run_graphemes(r, seq![seq!['{'], seq!['\\']] + gs) == ({
            let (r2, out, ok) = run_graphemes(r, seq![seq!['\\']] + gs);
            (r2, seq!['{'] + out, ok)
        }),
{
    let a = seq![seq!['{'], seq!['\\']];
    let b = seq![seq!['\\']];
    reveal_with_fuel(run_graphemes, 3);
    assert(a.drop_last() == seq![seq!['{']]);
    assert(a.drop_last().drop_last() == Seq::<Seq<char>>::empty());
    assert(b.drop_last() == Seq::<Seq<char>>::empty());
    let e = rv(r, LexState::Escape, r.curr_block);
    assert(run_graphemes(r, a.drop_last()) == (rv(r, LexState::EnterBlock, r.curr_block), Seq::<char>::empty() + Seq::<char>::empty(), true));
    assert(run_graphemes(r, a) == (e, Seq::<char>::empty() + Seq::<char>::empty() + seq!['{'], true));
    assert(run_graphemes(r, b) == (e, Seq::<char>::empty() + Seq::<char>::empty(), true));
    lemma_run_concat(r, a, gs);
    lemma_run_concat(r, b, gs);
    let (rb, ob, kb) = run_graphemes(e, gs);
    assert(Seq::<char>::empty() + Seq::<char>::empty() + seq!['{'] + ob == seq!['{'] + ob);
    assert(Seq::<char>::empty() + Seq::<char>::empty() + ob == ob);
}

/// Inside a block nothing is written: graphemes none of which is `}` are
/// added to the block text as they are.
pub proof fn lemma_block_text_kept(r: RunnerView, gs: Seq<Seq<char>>)
    requires
        r.state == LexState::InBlock,
        forall|i: int| 0 <= i < gs.len() ==> !is_rbrace(#[trigger] gs[i]),
    ensures
        run_graphemes(r, gs) == (rv(r, LexState::InBlock, r.curr_block + gs.flatten()), Seq::<char>::empty(), true),
    decreases gs.len(),
{
    if gs.len() == 0 {
        assert(r.curr_block + gs.flatten() == r.curr_block);
    } else {
        let init = gs.drop_last();
        let g = gs.last();
        assert(gs == init.push(g));
        init.lemma_flatten_push(g);
        assert forall|i: int| 0 <= i < init.len() implies !is_rbrace(#[trigger] init[i]) by {
            assert(init[i] == gs[i]);
        }
        lemma_block_text_kept(r, init);
        assert(!is_rbrace(gs[gs.len() - 1]));
        assert(r.curr_block + init.flatten() + g == r.curr_block + gs.flatten());
        assert(Seq::<char>::empty() + Seq::<char>::empty() == Seq::<char>::empty());
    }
}

/// Inside a block, one `}` does not end it: `}` and any grapheme `g` other
/// than `}` are added to the block text (`}\` stands for `}` alone), and
/// nothing is written; `}}` ends the block, which the runner stops at
/// without writing anything.
pub proof fn lemma_single_rbrace_in_block(r: RunnerView, g: Seq<char>)
    requires
        r.state == LexState::InBlock,
    ensures
        !is_rbrace(g) ==> run_graphemes(r, seq![seq!['}'], g]) == (
            rv(r, LexState::InBlock, r.curr_block + if is_bslash(g) { seq!['}'] } else { seq!['}'] + g }),
            Seq::<char>::empty(),
            true,
        ),
        is_rbrace(g) ==> run_graphemes(r, seq![seq!['}'], g]) == (
            rv(r, LexState::LeaveBlock, r.curr_block),
            Seq::<char>::empty(),
            false,
        ),
{
    reveal_with_fuel(run_graphemes, 3);
    let gs = seq![seq!['}'], g];
    assert(gs.drop_last() == seq![seq!['}']]);
    assert(gs.drop_last().drop_last() == Seq::<Seq<char>>::empty());
    assert(single_char_of(seq!['}']) == Some('}'));
    assert(Seq::<char>::empty() + Seq::<char>::empty() == Seq::<char>::empty());
    assert(r.curr_block.push('}') == r.curr_block + seq!['}']);
    assert(r.curr_block.push('}') + g == r.curr_block + (seq!['}'] + g));
}

/// Escaping round trip: the escaped text of any characters, one character
/// to a grapheme, read from outside any block, writes those characters back
/// and leaves the runner as it was.
pub proof fn lemma_escape_round_trip(r: RunnerView, cs: Seq<char>)
    requires
        r.state == LexState::Init,
    ensures
        run_graphemes(r, escape_all(cs)) == (r, cs, true),
    decreases cs.len(),
{
    if cs.len() == 0 {
        assert(cs == Seq::<char>::empty());
    } else {
        let pre = cs.drop_last();
        let c = cs.last();
        lemma_escape_round_trip(r, pre);
        lemma_run_concat(r, escape_all(pre), escaped(c));
        reveal_with_fuel(run_graphemes, 3);
        let e = escaped(c);
        if c == '{' || c == '}' || c == '\\' {
            assert(e.drop_last() == seq![seq!['\\']]);
            assert(e.drop_last().drop_last() == Seq::<Seq<char>>::empty());
            assert(single_char_of(seq!['\\']) == Some('\\'));
            assert(single_char_of(seq![c]) == Some(c));
        } else {
            assert(e.drop_last() == Seq::<Seq<char>>::empty());
            assert(single_char_of(seq![c]) == Some(c));
        }
        assert(cs == pre.push(c));
        assert(pre + seq![c] == cs);
    }
}

impl Runner {
    /// Runs the graphemes of one line (as `read_line` returns it), writing to
    /// `output`. `false`: a block is complete, which the runner cannot execute
    /// yet; the runner and `output` are as they were before that grapheme.
    pub fn feed_line(&mut self, line: &str, output: &mut String) -> (ok: bool)
        ensures
            ({
                let (r, o, k) = run_graphemes(old(self)@, extended_graphemes(line@));
                final(self)@ == r && final(output)@ == old(output)@ + o && ok == k
            }),
            old(self)@.state == LexState::Init && plain_text(line@) ==> final(self)@ == old(self)@
                && final(output)@ == old(output)@ + line@ && ok,
    {
        let grs = graphemes(line);
        let ghost gs = grs@.map_values(|g: &str| g@);
        let ok = self.run_clusters(&grs, output);
        proof {
            if old(self)@.state == LexState::Init && plain_text(line@) {
                lemma_verbatim(old(self)@, gs);
            }
        }
        ok
    }

    /// Runs a line given as its grapheme clusters, writing to `output`.
    /// `false`: a block is complete, which the runner cannot execute yet; the
    /// runner and `output` are as they were before that grapheme.
    pub fn run_clusters(&mut self, grs: &Vec<&str>, output: &mut String) -> (ok: bool)
        ensures
            ({
                let (r, o, k) = run_graphemes(old(self)@, grs@.map_values(|g: &str| g@));
                final(self)@ == r && final(output)@ == old(output)@ + o && ok == k
            }),
    {
        let ghost gs = grs@.map_values(|g: &str| g@);
        let ghost r0 = self@;
        let ghost out0 = output@;
        let ghost mut written: Seq<char> = seq![];
        let mut i: usize = 0;
        while i < grs.len()
            invariant
                i <= grs@.len(),
                gs == grs@.map_values(|g: &str| g@),
                r0 == old(self)@,
                out0 == old(output)@,
                output@ == out0 + written,
                run_graphemes(r0, gs.take(i as int)) == (self@, written, true),
            decreases grs@.len() - i,
        {
            assert(gs.take(i + 1).drop_last() == gs.take(i as int));
            assert(gs.take(i + 1).last() == grs@[i as int]@);
            let ghost before = output@;
            let ok = self.step(grs[i], output);
            if !ok {
                proof {
                    lemma_run_graphemes_stops(r0, gs, i + 1);
                }
                return false;
            }
            proof {
                assert(output@.skip(before.len() as int) + Seq::<char>::empty() == output@.skip(before.len() as int));
                written = written + output@.skip(before.len() as int);
                assert(output@ =~= out0 + written);
            }
            i = i + 1;
        }
        assert(gs.take(grs@.len() as int) == gs);
        true
    }

    /// The end of the input after `rows` lines: a `{` or `\\` still pending
    /// is written to `output`; a block still open is an error; otherwise it
    /// is a success.
    pub fn finish(&mut self, rows: usize, output: &mut String) -> (r: Result<(), RunnerError>)
        ensures
            r is Ok <==> !unclosed_at_end(old(self)@),
            r is Err ==> (r matches Err(RunnerError::UnclosedBlock { line }) && line == rows),
            final(self)@ == finish_runner(old(self)@),
            final(output)@ == old(output)@ + pending_text(old(self)@),
    {
        match self.lex_state {
            LexState::EnterBlock => {
                emit_char(output, '{');
                self.lex_state = LexState::Init;
            },
            LexState::Escape => {
                emit_char(output, '\\');
                self.lex_state = LexState::Init;
            },
            LexState::InBlock => {
                assert(output@ == old(output)@ + Seq::<char>::empty());
                return Err(RunnerError::UnclosedBlock { line: rows });
            },
            _ => {
                assert(output@ == old(output)@ + Seq::<char>::empty());
            },
        }
        Ok(())
    }

    /// Runs the text `input` in scope `curr_scope`, writing to `output`:
    /// line by line as `read_line` would give it, then the end of the input.
    /// `None`: a block is complete, which the runner cannot execute yet; the
    /// runner and `output` are as they were before the block's last `}`.
    pub fn run_scope(&mut self, curr_scope: usize, input: &str, output: &mut String) -> (r: Option<Result<(), RunnerError>>)
        ensures
            ({
                let ps = text_pieces(input@);
                let (rv, o, k) = run_pieces(old(self)@, ps);
                &&& !k ==> final(self)@ == rv && final(output)@ == old(output)@ + o
                &&& k ==> final(self)@ == finish_runner(rv) && final(output)@ == old(output)@ + o
                    + pending_text(rv)
                &&& !k ==> r is None
                &&& k && unclosed_at_end(rv) ==> (r matches Some(Err(RunnerError::UnclosedBlock { line }))
                    && line == ps.len())
                &&& k && !unclosed_at_end(rv) ==> r matches Some(Ok(()))
            }),
            old(self)@.state == LexState::Init && plain_text(input@) ==> final(self)@ == old(self)@
                && final(output)@ == old(output)@ + input@ && r matches Some(Ok(())),
    {
        let pieces = pieces_of(input);
        let ghost ps = text_pieces(input@);
        let ghost r0 = self@;
        let ghost out0 = output@;
        let ghost mut written: Seq<char> = seq![];
        let ghost plain = r0.state == LexState::Init && plain_text(input@);
        proof {
            lemma_pieces_flatten(input@);
            if plain {
                lemma_plain_pieces(ps);
            }
        }
        assert(pieces@.map_values(|l: String| l@).len() == pieces@.len());
        let mut row: usize = 0;
        while row < pieces.len()
            invariant
                row <= pieces@.len(),
                pieces@.map_values(|l: String| l@) == ps,
                ps == text_pieces(input@),
                r0 == old(self)@,
                out0 == old(output)@,
                output@ == out0 + written,
                run_pieces(r0, ps.take(row as int)) == (self@, written, true),
                plain == (r0.state == LexState::Init && plain_text(input@)),
                plain ==> forall|j: int| 0 <= j < ps.len() ==> plain_text(#[trigger] ps[j]),
                plain ==> self@ == r0 && written == ps.take(row as int).flatten(),
            decreases pieces@.len() - row,
        {
            assert(ps.take(row + 1).drop_last() == ps.take(row as int));
            assert(ps.take(row + 1).last() == pieces@[row as int]@);
            let ghost before = output@;
            let ok = self.feed_line(pieces[row].as_str(), output);
            proof {
                written = written + output@.skip(before.len() as int);
                assert(output@ =~= out0 + written);
                if plain {
                    assert(plain_text(ps[row as int]));
                    assert(ps.take(row + 1) == ps.take(row as int).push(ps[row as int]));
                    ps.take(row as int).lemma_flatten_push(ps[row as int]);
                }
            }
            if !ok {
                proof { lemma_run_pieces_stops(r0, ps, row + 1); }
                return None;
            }
            row = row + 1;
        }
        assert(ps.take(pieces@.len() as int) == ps);
        let ghost before = output@;
        let res = self.finish(row, output);
        assert(output@ == out0 + written + pending_text(run_pieces(r0, ps).0));
        Some(res)
    }
}

} // verus!
