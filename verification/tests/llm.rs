//! The grouping agent as a command.
use differential::grouping::parse::json_object;
use differential::llm::{CommandBackend, LlmError};
use differential::subprocess::Failure;
use differential::EngineError;

#[test]
fn where_the_binary_lives_is_not_part_of_the_cache_identity() {
    // The grouping cache key hashes `identity`. If it hashed the argv the
    // absolute path would be in the key, and a debug build, a release build
    // and a second checkout of the same commit would each re-run a
    // four-hundred-second call over an identical class partition.
    let a = CommandBackend::claude_cli("agent", "Agent", "/Users/someone/.cargo/bin/dfr");
    let b = CommandBackend::claude_cli("agent", "Agent", "/srv/ci/target/release/dfr");
    assert_eq!(a.identity(), b.identity());
    assert!(!a.identity().contains(".cargo"), "{}", a.identity());

    // A backend with nothing better to call itself is its own identity, and
    // two different agents must never share a cache entry.
    let one = CommandBackend::new(vec!["agent-one".into()], 1000);
    let two = CommandBackend::new(vec!["agent-two".into()], 1000);
    assert_eq!(one.identity(), one.name());
    assert_ne!(one.identity(), two.identity());
}

#[test]
fn changing_the_allowlist_does_change_the_cache_identity() {
    // The other half of the rule: the allowlist shapes what the model can
    // see, so it must stay in the key even though the path does not.
    let b = CommandBackend::claude_cli("agent", "Agent", "/opt/bin/dfr");
    assert!(b.identity().contains("Read,Grep,Glob"), "{}", b.identity());
    assert!(!b.identity().contains("/opt/bin"), "{}", b.identity());
}

#[test]
fn claude_cli_default_allows_reading_and_nothing_else() {
    let b = CommandBackend::claude_cli("agent", "Agent", "/opt/bin/dfr");
    let argv = &b.command;
    assert!(
        argv.contains("Bash(/opt/bin/dfr agent:*)"),
        "the allowlist names the same executable the prompt does"
    );
    assert!(
        argv.contains("Bash(git diff:*)"),
        "the prompt tells the model to run git diff, so it must be permitted"
    );
    // The whole list, exactly. The argv is built with a line continuation,
    // and a stray space inside one would produce an allowlist that parses
    // as something else. This is the security boundary, and a broken fetch
    // costs minutes of a model working around it, so it fails here loudly
    // rather than there silently.
    assert!(
        argv.ends_with(
            "--allowed-tools Bash(/opt/bin/dfr agent:*),Bash(git diff:*),Read,Grep,Glob,Bash(git log:*),Bash(git show:*)"
        ),
        "{argv}"
    );
    // The allowlist is the security boundary, so the test states what must
    // stay OUT of it, not merely what is in it.
    for forbidden in [
        "Write",
        "Edit",
        "Bash(git commit",
        "Bash(git push",
        "WebFetch",
    ] {
        assert!(!argv.contains(forbidden), "{forbidden} must not be allowed");
    }
}

#[test]
fn a_backend_keeps_what_it_is_given() {
    let b = CommandBackend::claude_cli("agent", "Agent", "dfr")
        .with_working_dir("/repo")
        .with_timeout(5);
    assert_eq!(b.name(), "Agent");
    assert_eq!(b.working_dir.as_deref(), Some("/repo"));
    assert_eq!(b.timeout_millis, 5);
    assert_eq!(b.argv[0], "agent");
    assert_eq!(CommandBackend::claude_cli("agent", "Agent", "dfr").timeout_millis, 1_200_000);
}

fn backend(word: &str) -> CommandBackend {
    CommandBackend::new(vec![word.to_string()], 10_000)
}

#[test]
fn cat_echoes_the_prompt() {
    let out = backend("cat").judge(true, Some(0), b"hello prompt\n", b"").unwrap();
    assert_eq!(out, "hello prompt\n");
}

#[test]
fn nonzero_exit_is_failed() {
    match backend("false").judge(false, Some(1), b"", b"") {
        Err(LlmError::Failed { code, .. }) => assert_eq!(code, Some(1)),
        other => panic!("expected Failed, got {other:?}"),
    }
}

#[test]
fn empty_output_is_an_error() {
    match backend("true").judge(true, Some(0), b"", b"") {
        Err(LlmError::Empty { .. }) => {}
        other => panic!("expected Empty, got {other:?}"),
    }
}

#[test]
fn garbage_errors_with_sample() {
    match json_object("I cannot help with that.") {
        Err(EngineError::GroupingParse { sample, .. }) => {
            assert!(sample.contains("cannot help"));
        }
        other => panic!("expected GroupingParse, got {other:?}"),
    }
}

#[test]
fn the_reviewer_sees_a_product_name_and_an_error_sees_the_command() {
    let b = CommandBackend::claude_cli("agent", "Agent", "/opt/bin/dfr");
    assert_eq!(b.name(), "Agent");

    let missing = CommandBackend::new(vec!["definitely-not-a-real-program".into()], 1000);
    match missing.failure(Failure::Spawn("not found".into())) {
        LlmError::Spawn { command, .. } => {
            assert_eq!(command, "definitely-not-a-real-program");
        }
        other => panic!("expected Spawn, got {other:?}"),
    }
}

#[test]
fn the_default_agent_runs_headless_with_tools_that_read() {
    let b = CommandBackend::claude_cli("agent", "Agent", "/opt/bin/dfr");
    assert_eq!(b.argv[..5], ["agent", "-p", "--output-format", "text", "--allowed-tools"]);
    assert_eq!(b.argv.len(), 6);
}
