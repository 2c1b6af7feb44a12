use ssg::ssg::{Runner, RunnerError};

#[test]
fn test_literal() {
    let mut exe = Runner::new();
    let mut out = String::new();
    let _ = exe.run_scope(0, "<h1>yield hello;</h1>", &mut out);
    assert_eq!("<h1>yield hello;</h1>", out);
}

#[test]
fn test_escape() {
    let mut exe = Runner::new();
    let mut out = String::new();
    let _ = exe.run_scope(0, "<h1>{\\{yield hello;}\\}</h1>", &mut out);
    assert_eq!("<h1>{{yield hello;}}</h1>", out);
}

#[test]
fn test_unclosed_block() {
    let mut exe = Runner::new();
    let mut out = String::new();
    let ret = exe.run_scope(0, "<h1>{{yield hello;}</h1>", &mut out);
    if !matches!(ret, Some(Err(RunnerError::UnclosedBlock { line: 1 }))) {
        panic!("{ret:?} does not error or does not match error")
    }
}
