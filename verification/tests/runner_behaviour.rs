use ssg::exe::Runner as First;
use ssg::ssg::{LexState, Runner, RunnerError};

fn run(input: &str) -> (String, Option<Result<(), RunnerError>>, Runner) {
    let mut r = Runner::new();
    let mut out = String::new();
    let ret = r.run_scope(0, input, &mut out);
    (out, ret, r)
}

#[test]
fn plain_text_is_copied_verbatim() {
    let text = "<p>héllo wörld</p>\r\n\nsecond line } with a brace\nno newline at end";
    let (out, ret, r) = run(text);
    assert_eq!(out, text);
    assert!(matches!(ret, Some(Ok(()))));
    assert_eq!(r.state(), LexState::Init);
}

#[test]
fn empty_input_is_fine() {
    let (out, ret, _) = run("");
    assert_eq!(out, "");
    assert!(matches!(ret, Some(Ok(()))));
}

#[test]
fn escapes_stand_for_their_character() {
    let (out, _, _) = run("a\\{b\\}c\\\\d\\xe");
    assert_eq!(out, "a{b}c\\d\\xe");
}

#[test]
fn single_brace_is_written() {
    let (out, ret, _) = run("{a {\\}");
    assert_eq!(out, "{a {}");
    assert!(matches!(ret, Some(Ok(()))));
}

#[test]
fn grapheme_clusters_are_kept_whole() {
    // "{" followed by a combining accent is one grapheme, not an escaped brace.
    let (out, _, _) = run("\\{\u{301}");
    assert_eq!(out, "\\{\u{301}");
}

#[test]
fn unclosed_block_reports_the_line_count() {
    let (out, ret, r) = run("first\n{{ block\nstill in block\n");
    assert_eq!(out, "first\n");
    assert!(matches!(ret, Some(Err(RunnerError::UnclosedBlock { line: 3 }))));
    assert_eq!(r.curr_block(), " block\nstill in block\n");
}

#[test]
fn single_closing_brace_in_block_is_block_text() {
    let (out, ret, r) = run("{{a}b}\\c");
    assert_eq!(out, "");
    assert!(matches!(ret, Some(Err(RunnerError::UnclosedBlock { line: 1 }))));
    assert_eq!(r.curr_block(), "a}b}c");
}

#[test]
fn pending_brace_or_backslash_is_written_at_end() {
    let (out, ret, r) = run("a{");
    assert_eq!(out, "a{");
    assert!(matches!(ret, Some(Ok(()))));
    assert_eq!(r.state(), LexState::Init);
    let (out, ret, _) = run("a\\");
    assert_eq!(out, "a\\");
    assert!(matches!(ret, Some(Ok(()))));
}

#[test]
fn lone_brace_and_backslash_are_copied() {
    let text = "f(x) { return x; } \\n \\t {a}";
    let (out, ret, _) = run(text);
    assert_eq!(out, text);
    assert!(matches!(ret, Some(Ok(()))));
}

#[test]
fn ending_after_one_closing_brace_is_no_error() {
    let (_, ret, r) = run("{{a}");
    assert!(matches!(ret, Some(Ok(()))));
    assert_eq!(r.state(), LexState::LeaveBlock);
}

#[test]
fn complete_block_cannot_be_executed_yet() {
    let (out, ret, r) = run("x{{yield a;}}y");
    assert!(ret.is_none());
    assert_eq!(out, "x");
    assert_eq!(r.curr_block(), "yield a;");
    assert_eq!(r.state(), LexState::LeaveBlock);
}

#[test]
fn feed_line_then_finish() {
    let mut r = Runner::new();
    let mut out = String::new();
    assert!(r.feed_line("a{{b\n", &mut out));
    assert_eq!(out, "a");
    assert!(matches!(r.finish(7, &mut out), Err(RunnerError::UnclosedBlock { line: 7 })));
}

#[test]
fn first_runner_handlers() {
    let mut r = First::new();
    let mut out = String::new();
    r.lex_init("a", &mut out);
    r.lex_init("{", &mut out);
    r.lex_first_lbrace("b", &mut out);
    r.lex_escape("\"", &mut out);
    r.lex_escape("q", &mut out);
    assert_eq!(out, "a{b\"\\q");
}

#[test]
fn first_runner_stops_at_first_line_end() {
    let mut r = First::new();
    let mut out = String::new();
    assert!(r.run_scope(0, "", &mut out));
    assert_eq!(out, "");
    assert!(!r.run_scope(0, "ab\ncd", &mut out));
    assert_eq!(out, "ab");
    let mut r = First::new();
    let mut out = String::new();
    assert!(!r.run_scope(0, "x{yz\n", &mut out));
    assert_eq!(out, "x");
}
