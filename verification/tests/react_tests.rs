use vec101::react::{failing_command, react_next, ReactAction, ScriptOutcome, MAX_RETRIES};

fn blamed(stderr: &str) -> String {
    let chars: Vec<char> = stderr.chars().collect();
    failing_command(&chars).into_iter().collect()
}

#[test]
fn failing_command_between_last_two_colons() {
    assert_eq!(blamed("/tmp/run.sh: line 3: frobnicate: command not found\n"), "frobnicate");
    assert_eq!(blamed("bash: foo: command not found"), "foo");
    // trimmed with Unicode white space, then the first word
    assert_eq!(blamed("sh:\u{3000}\tfoo bar \u{a0}: command not found"), "foo");
    assert_eq!(blamed("sh:   : command not found"), "");
}

#[test]
fn failing_command_with_fewer_colons_takes_first_word() {
    assert_eq!(blamed("x: command not found"), "x:");
    assert_eq!(blamed("foo command not found"), "foo");
}

#[test]
fn failing_command_unknown_otherwise() {
    assert_eq!(blamed("Segmentation fault: core dumped"), "unknown");
    assert_eq!(blamed(""), "unknown");
    assert_eq!(blamed("command not foun"), "unknown");
}

#[test]
fn react_steps() {
    assert_eq!(MAX_RETRIES, 2);
    assert_eq!(react_next(1, MAX_RETRIES, ScriptOutcome::Succeeded), ReactAction::Finish);
    assert_eq!(react_next(1, MAX_RETRIES, ScriptOutcome::Failed), ReactAction::Retry);
    assert_eq!(react_next(1, MAX_RETRIES, ScriptOutcome::NoScript), ReactAction::Retry);
    assert_eq!(react_next(2, MAX_RETRIES, ScriptOutcome::Failed), ReactAction::GiveUp);
    assert_eq!(react_next(2, MAX_RETRIES, ScriptOutcome::Succeeded), ReactAction::Finish);
}
