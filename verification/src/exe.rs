//! The first page runner: copies text through, watching for `{` and `\`.

use crate::segment::{extended_grapheme_indices, grapheme_indices};
use crate::ssg::ScopeView;
use crate::text::{lines_of, push_char, single_char, single_char_of, text_lines};
use std::collections::HashMap;
use std::rc::Rc;
use vstd::prelude::*;
use vstd::string::StringExecFns;

verus! {

/// Lexes, parses, and executes blocks; copy-paste verbatim otherwise.
pub struct Runner {
    curr_block: String,
    scopes: Vec<Scope>,
    lex_state: LexState,
}

/// A scope of variables.
pub struct Scope {
    vars: HashMap<Rc<str>, Rc<str>>,
    parent: Option<usize>,
}

/// Think of the lexer as a state machine.
#[derive(Debug, PartialEq, Eq, Clone, Copy, Structural)]
pub enum LexState {
    /// No block funsies
    Init,
    /// Receive one "{"
    FirstLBrace,
    /// Receive second "{"
    InBlock,
    /// Receive one "}"
    FirstRBrace,
    /// Receive a "\\" while in block
    Escape,
    /// In block, receive a "\\"
    InBlockEscape,
    /// In block, receive a "\""
    InString,
    /// In string, receive a "\\"
    EscapeInString,
}

impl View for Scope {
    type V = ScopeView;

    closed spec fn view(&self) -> ScopeView {
        ScopeView { vars: self.vars@, parent: self.parent }
    }
}

/// The runner as a mathematical value.
pub struct RunnerView {
    pub curr_block: Seq<char>,
    pub state: LexState,
    pub scopes: Seq<ScopeView>,
}

impl View for Runner {
    type V = RunnerView;

    closed spec fn view(&self) -> RunnerView {
        RunnerView {
            curr_block: self.curr_block@,
            state: self.lex_state,
            scopes: self.scopes@.map_values(|sc: Scope| sc@),
        }
    }
}

/// The runner in state `st`.
pub open spec fn in_state(r: RunnerView, st: LexState) -> RunnerView {
    RunnerView { state: st, ..r }
}

/// What `lex_init` writes for grapheme `g`, and the state it moves to.
pub open spec fn init_spec(r: RunnerView, g: Seq<char>) -> (RunnerView, Seq<char>) {
    if single_char_of(g) == Some('{') {
        (in_state(r, LexState::FirstLBrace), seq![])
    } else if single_char_of(g) == Some('\\') {
        (in_state(r, LexState::Escape), seq![])
    } else {
        (r, g)
    }
}

/// What `lex_first_lbrace` writes for grapheme `g`, and the state it moves
/// to: a second `{` opens a block; otherwise the first `{` is written and
/// the runner is outside any block again.
pub open spec fn first_lbrace_spec(r: RunnerView, g: Seq<char>) -> (RunnerView, Seq<char>) {
    if single_char_of(g) == Some('{') {
        (in_state(r, LexState::InBlock), seq![])
    } else if single_char_of(g) == Some('\\') {
        (in_state(r, LexState::Escape), seq!['{'])
    } else {
        (in_state(r, LexState::Init), seq!['{'] + g)
    }
}

/// What `lex_escape` writes for grapheme `g`: `\\`, `\"`, `\{` and `\}`
/// stand for the character after the backslash; any other grapheme is
/// written with the backslash before it. The escape covers that one
/// grapheme: the runner is outside any block again.
pub open spec fn escape_spec(r: RunnerView, g: Seq<char>) -> (RunnerView, Seq<char>) {
    let c = single_char_of(g);
    if c == Some('\\') || c == Some('"') || c == Some('{') || c == Some('}') {
        (in_state(r, LexState::Init), g)
    } else {
        (in_state(r, LexState::Init), seq!['\\'] + g)
    }
}

impl Default for Runner {
    fn default() -> (r: Self)
        ensures
            r@ == (RunnerView { curr_block: seq![], state: LexState::Init, scopes: seq![] }),
    {
        let r = Self { curr_block: String::new(), scopes: Vec::new(), lex_state: LexState::Init };
        assert(r@.scopes =~= Seq::<ScopeView>::empty());
        return r;
    }
}

/// Appends one character to `out`.
fn emit_char(out: &mut String, c: char)
    ensures
        final(out)@ == old(out)@ + seq![c],
{
    push_char(out, c);
    assert(old(out)@.push(c) == old(out)@ + seq![c]);
}

impl Runner {
    pub fn new() -> (r: Self)
        ensures
            r@ == (RunnerView { curr_block: seq![], state: LexState::Init, scopes: seq![] }),
    {
        Self::default()
    }

    /// A grapheme outside any block, with `output` receiving what is written.
    pub fn lex_init(&mut self, gr: &str, output: &mut String)
        ensures
            (final(self)@, final(output)@) == ({
                let (r, o) = init_spec(old(self)@, gr@);
                (r, old(output)@ + o)
            }),
    {
        match single_char(gr) {
            Some('{') => {
                self.lex_state = LexState::FirstLBrace;
            },
            Some('\\') => {
                self.lex_state = LexState::Escape;
            },
            _ => {
                output.append(gr);
            },
        }
    }

    /// A grapheme after one `{`.
    pub fn lex_first_lbrace(&mut self, gr: &str, output: &mut String)
        ensures
            (final(self)@, final(output)@) == ({
                let (r, o) = first_lbrace_spec(old(self)@, gr@);
                (r, old(output)@ + o)
            }),
    {
        match single_char(gr) {
            Some('{') => {
                self.lex_state = LexState::InBlock;
            },
            Some('\\') => {
                emit_char(output, '{');
                self.lex_state = LexState::Escape;
            },
            _ => {
                emit_char(output, '{');
                output.append(gr);
                self.lex_state = LexState::Init;
                assert(final(output)@ == old(output)@ + (seq!['{'] + gr@));
            },
        }
    }

    /// A grapheme after a backslash.
    pub fn lex_escape(&mut self, gr: &str, output: &mut String)
        ensures
            (final(self)@, final(output)@) == ({
                let (r, o) = escape_spec(old(self)@, gr@);
                (r, old(output)@ + o)
            }),
    {
        match single_char(gr) {
            Some('\\') => {
                emit_char(output, '\\');
                assert(gr@ =~= seq!['\\']);
            },
            Some('"') => {
                emit_char(output, '"');
                assert(gr@ =~= seq!['"']);
            },
            // technically, the only thing really matters to escape is the right-brace
            Some('{') => {
                emit_char(output, '{');
                assert(gr@ =~= seq!['{']);
            },
            Some('}') => {
                emit_char(output, '}');
                assert(gr@ =~= seq!['}']);
            },
            _ => {
                emit_char(output, '\\');
                output.append(gr);
                assert(output@ == old(output)@ + (seq!['\\'] + gr@));
            },
        }
        self.lex_state = LexState::Init;
    }
}

/// A backslash outside any block escapes exactly the grapheme after it:
/// `\\`, `\"`, `\{` and `\}` write that one character alone, any other
/// grapheme is written with the backslash before it, and either way the
/// runner is back where it was.
pub proof fn lemma_escape_writes(r: RunnerView, g: Seq<char>)
    requires
        r.state == LexState::Init,
    ensures
        ({
            let (r1, o1) = init_spec(r, seq!['\\']);
            let (r2, o2) = escape_spec(r1, g);
            &&& r1.state == LexState::Escape
            &&& r2 == r
            &&& (g == seq!['\\'] || g == seq!['"'] || g == seq!['{'] || g == seq!['}']) ==> o1 + o2 == g
            &&& !(g == seq!['\\'] || g == seq!['"'] || g == seq!['{'] || g == seq!['}']) ==> o1 + o2 == seq!['\\'] + g
        }),
{
    let e = in_state(r, LexState::Escape);
    assert(single_char_of(seq!['\\']) == Some('\\'));
    assert(init_spec(r, seq!['\\']) == (e, Seq::<char>::empty()));
    if g.len() == 1 {
        assert(g == seq![g[0]]);
    }
    assert(in_state(e, LexState::Init) == r);
    let o2 = escape_spec(e, g).1;
    assert(Seq::<char>::empty() + o2 == o2);
}

/// A `{` outside any block that opens no block is written as it is: followed
/// by any grapheme `g` other than `{` and `\\`, it writes `{` and then `g`
/// and the runner is back where it was; followed by `\\` and `g`, it writes
/// `{` and then what `\\` and `g` write on their own, and ends the same way.
pub proof fn lemma_lone_lbrace_writes(r: RunnerView, g: Seq<char>)
    requires
        r.state == LexState::Init,
    ensures
        g != seq!['{'] && g != seq!['\\'] ==> ({
            let (r1, o1) = init_spec(r, seq!['{']);
            let (r2, o2) = first_lbrace_spec(r1, g);
            r2 == r && o1 + o2 == seq!['{'] + g
        }),
        ({
            let (r1, o1) = init_spec(r, seq!['{']);
            let (r2, o2) = first_lbrace_spec(r1, seq!['\\']);
            let (r3, o3) = escape_spec(r2, g);
            let (s1, p1) = init_spec(r, seq!['\\']);
            let (s2, p2) = escape_spec(s1, g);
            r3 == s2 && o1 + o2 + o3 == seq!['{'] + (p1 + p2)
        }),
{
    assert(single_char_of(seq!['{']) == Some('{'));
    assert(single_char_of(seq!['\\']) == Some('\\'));
    if g.len() == 1 {
        assert(g == seq![g[0]]);
    }
    let f = in_state(r, LexState::FirstLBrace);
    let e = in_state(r, LexState::Escape);
    assert(in_state(f, LexState::Init) == r);
    assert(in_state(f, LexState::Escape) == e);
    assert(Seq::<char>::empty() + (seq!['{'] + g) == seq!['{'] + g);
    let p2 = escape_spec(e, g).1;
    assert(Seq::<char>::empty() + seq!['{'] + p2 == seq!['{'] + (Seq::<char>::empty() + p2));
}

/// The graphemes of a line while the runner stays outside any block: each is
/// handled by `lex_init`, and the runner stops at the first grapheme it meets
/// in another state, which it cannot handle yet.
pub open spec fn run_init_graphemes(r: RunnerView, gs: Seq<Seq<char>>) -> (RunnerView, Seq<char>)
    decreases gs.len(),
{
    if gs.len() == 0 {
        (r, seq![])
    } else {
        let (r1, o1) = run_init_graphemes(r, gs.drop_last());
        if r1.state == LexState::Init {
            let (r2, o2) = init_spec(r1, gs.last());
            (r2, o1 + o2)
        } else {
            (r1, o1)
        }
    }
}

/// The graphemes of a line (from their offsets and clusters).
pub open spec fn clusters(gs: Seq<(usize, Seq<char>)>) -> Seq<Seq<char>> {
    gs.map_values(|p: (usize, Seq<char>)| p.1)
}

impl Runner {
    /// Runs the text `input` in scope `curr_scope`, writing to `output`. The
    /// runner cannot go past the end of a line yet: it completes (`true`) only
    /// on input without lines; otherwise it runs the first line's graphemes as
    /// `run_init_graphemes` says and stops (`false`).
    pub fn run_scope(&mut self, curr_scope: usize, input: &str, output: &mut String) -> (done: bool)
        ensures
            done == (text_lines(input@).len() == 0),
            done ==> final(self)@ == old(self)@ && final(output)@ == old(output)@,
            !done ==> ({
                let (r, o) = run_init_graphemes(
                    old(self)@,
                    clusters(extended_grapheme_indices(text_lines(input@)[0])),
                );
                final(self)@ == r && final(output)@ == old(output)@ + o
            }),
    {
        let lines = lines_of(input);
        if lines.len() == 0 {
            return true;
        }
        assert(lines@.map_values(|l: String| l@).len() == lines@.len());
        assert(lines@[0]@ == text_lines(input@)[0]);
        let grs = grapheme_indices(lines[0].as_str());
        assert(clusters(grs@.map_values(|p: (usize, &str)| (p.0, p.1@))) =~= clusters(
            extended_grapheme_indices(text_lines(input@)[0]),
        ));
        self.run_line_clusters(&grs, output);
        false
    }

    /// Runs a line given as its grapheme clusters with their offsets,
    /// writing to `output`, as `run_init_graphemes` says.
    pub fn run_line_clusters(&mut self, grs: &Vec<(usize, &str)>, output: &mut String)
        ensures
            ({
                let (r, o) = run_init_graphemes(
                    old(self)@,
                    clusters(grs@.map_values(|p: (usize, &str)| (p.0, p.1@))),
                );
                final(self)@ == r && final(output)@ == old(output)@ + o
            }),
    {
        let ghost gs = clusters(grs@.map_values(|p: (usize, &str)| (p.0, p.1@)));
        let ghost r0 = self@;
        let ghost out0 = output@;
        let ghost mut written: Seq<char> = seq![];
        let mut i: usize = 0;
        while i < grs.len()
            invariant
                i <= grs@.len(),
                gs == clusters(grs@.map_values(|p: (usize, &str)| (p.0, p.1@))),
                r0 == old(self)@,
                out0 == old(output)@,
                output@ == out0 + written,
                run_init_graphemes(r0, gs.take(i as int)) == (self@, written),
            decreases grs@.len() - i,
        {
            assert(gs.take(i + 1).drop_last() == gs.take(i as int));
            assert(gs.take(i + 1).last() == grs@[i as int].1@);
            if !matches!(self.lex_state, LexState::Init) {
                proof { lemma_run_init_stops(r0, gs, i as int); }
                return;
            }
            let (_, gr) = grs[i];
            let ghost before = output@;
            self.lex_init(gr, output);
            proof {
                written = written + output@.skip(before.len() as int);
                assert(output@ =~= out0 + written);
            }
            i = i + 1;
        }
        assert(gs.take(grs@.len() as int) == gs);
    }
}

/// Once the runner has left the outside-of-blocks state, the rest of the
/// line changes nothing.
proof fn lemma_run_init_stops(r: RunnerView, gs: Seq<Seq<char>>, k: int)
    requires
        0 <= k <= gs.len(),
        run_init_graphemes(r, gs.take(k)).0.state != LexState::Init,
    ensures
        run_init_graphemes(r, gs) == run_init_graphemes(r, gs.take(k)),
    decreases gs.len() - k,
{
    if k < gs.len() {
        assert(gs.take(k + 1).drop_last() == gs.take(k));
        lemma_run_init_stops(r, gs, k + 1);
    } else {
        assert(gs.take(k) == gs);
    }
}

} // verus!
