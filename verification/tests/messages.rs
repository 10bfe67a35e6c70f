//! What each failure says.
use differential::forge::ForgeError;
use differential::llm::LlmError;
use differential::messages::duration_string;
use differential::schema::{check_version, SchemaError};
use differential::EngineError;

#[test]
fn a_span_of_time_drops_its_trailing_zeros() {
    for (millis, shown) in [
        (0, "0ns"),
        (7, "7ms"),
        (999, "999ms"),
        (1_000, "1s"),
        (1_500, "1.5s"),
        (1_250, "1.25s"),
        (1_050, "1.05s"),
        (1_001, "1.001s"),
        (1_012, "1.012s"),
        (61_123, "61.123s"),
        (1_200_000, "1200s"),
    ] {
        assert_eq!(duration_string(millis), shown);
    }
}

#[test]
fn every_engine_error_says_what_went_wrong() {
    let cases: Vec<(EngineError, &str)> = vec![
        (EngineError::GitSpawn { msg: "no git".into() }, "failed to spawn git: no git"),
        (
            EngineError::GitCommand {
                command: "git show".into(),
                code: Some(128),
                stderr: "bad object".into(),
            },
            "git show exited with Some(128): bad object",
        ),
        (
            EngineError::GitCommand { command: "git".into(), code: None, stderr: "".into() },
            "git exited with None: ",
        ),
        (
            EngineError::Parse { line: 12, msg: "bad header".into() },
            "diff parse error at line 12: bad header",
        ),
        (
            EngineError::NonUtf8Path { lossy: "a\"b\n".into() },
            "path is not valid UTF-8 and cannot be serialised to JSON yet: \"a\\\"b\\n\" \
             (non-UTF-8 path support is deferred)",
        ),
        (EngineError::Invariant("x".into()), "invariant violated: x"),
        (
            EngineError::Config { path: "c.toml".into(), msg: "bad".into() },
            "config error in c.toml: bad",
        ),
        (
            EngineError::Schema(SchemaError::UnsupportedVersion { found: 9 }),
            "schema error: unsupported schema_version 9 (this reader understands 1)",
        ),
        (
            EngineError::Schema(SchemaError::Json("eof".into())),
            "schema error: invalid plan document: eof",
        ),
        (EngineError::Range("no range".into()), "no range"),
        (
            EngineError::PlanIntegrity("h9".into()),
            "plan document is inconsistent: h9",
        ),
        (
            EngineError::Cache { path: "p".into(), msg: "m".into() },
            "cache error at p: m",
        ),
        (EngineError::Llm(LlmError::Empty { command: "c".into() }), "c produced no output"),
        (EngineError::Forge(ForgeError::NoRequest("none".into())), "none"),
    ];
    for (e, shown) in cases {
        assert_eq!(e.message(), shown);
    }
    let e = EngineError::GroupingParse { msg: "no object".into(), sample: "hi".into() };
    assert!(e.message().contains("no object") && e.message().contains("\"hi\""));
}

#[test]
fn an_agent_that_fails_is_named_with_its_command() {
    let command = || "agent -p".to_string();
    for (e, shown) in [
        (
            LlmError::Spawn { command: command(), msg: "not found".into() },
            "failed to spawn agent -p: not found",
        ),
        (
            LlmError::Failed { command: command(), code: Some(-1), stderr: "boom".into() },
            "agent -p exited with Some(-1): boom",
        ),
        (LlmError::Empty { command: command() }, "agent -p produced no output"),
        (
            LlmError::Timeout { command: command(), timeout_millis: 2_500 },
            "agent -p exceeded the 2.5s deadline and was killed",
        ),
        (LlmError::Cancelled { command: command() }, "agent -p was cancelled and killed"),
        (
            LlmError::Io { command: command(), msg: "broken pipe".into() },
            "io error talking to agent -p: broken pipe",
        ),
    ] {
        assert_eq!(e.message(), shown);
    }
}

#[test]
fn a_forge_that_fails_is_named_with_its_command() {
    let command = || "gh api".to_string();
    for (e, shown) in [
        (
            ForgeError::Spawn { command: command(), msg: "not found".into() },
            "failed to spawn gh api: not found",
        ),
        (
            ForgeError::Failed { command: command(), code: Some(1), stderr: "404".into() },
            "gh api exited with Some(1): 404",
        ),
        (
            ForgeError::Timeout { command: command(), timeout_millis: 60_000 },
            "gh api did not finish within 60s",
        ),
        (ForgeError::Cancelled { command: command() }, "gh api was cancelled"),
        (ForgeError::Io { command: command(), msg: "m".into() }, "gh api: m"),
        (
            ForgeError::Parse { command: command(), msg: "no id".into() },
            "could not read gh api's answer: no id",
        ),
    ] {
        assert_eq!(e.message(), shown);
    }
}

#[test]
fn only_the_known_schema_version_is_read() {
    assert!(check_version(1).is_ok());
    assert_eq!(check_version(2), Err(SchemaError::UnsupportedVersion { found: 2 }));
}
