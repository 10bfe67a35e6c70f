//! What a failure says to a reader.
use vstd::prelude::*;

use crate::forge::ForgeError;
use crate::llm::LlmError;
use crate::schema::{SchemaError, SCHEMA_VERSION};
use crate::text::{
    debug_text, decimal, integer_string, integer_text, push_decimal, push_str, quoted,
};
use crate::EngineError;

verus! {

/// An exit code as it is shown; none for a child that a signal ended.
pub open spec fn code_text(code: Option<i32>) -> Seq<char> {
    match code {
        Some(n) => "Some("@ + integer_text(n as int) + ")"@,
        None => "None"@,
    }
}

fn code_string(code: Option<i32>) -> (r: String)
    ensures
        r@ == code_text(code),
{
    match code {
        Some(n) => {
            let mut out = "Some(".to_owned();
            push_str(&mut out, &integer_string(n as i64));
            push_str(&mut out, ")");
            out
        },
        None => "None".to_owned(),
    }
}

/// The part of a second that `n` thousandths are, without zeros at its end.
pub open spec fn fraction_text(n: nat) -> Seq<char> {
    if n == 0 {
        ""@
    } else if n % 100 == 0 {
        "."@ + decimal(n / 100)
    } else if n % 10 == 0 {
        "."@ + (if n < 100 {
            "0"@
        } else {
            ""@
        }) + decimal(n / 10)
    } else {
        "."@ + (if n < 10 {
            "00"@
        } else if n < 100 {
            "0"@
        } else {
            ""@
        }) + decimal(n)
    }
}

/// A span of time as it is shown: whole and part seconds, or milliseconds below
/// one second.
pub open spec fn duration_text(millis: u64) -> Seq<char> {
    if millis == 0 {
        "0ns"@
    } else if millis < 1000 {
        decimal(millis as nat) + "ms"@
    } else {
        decimal((millis / 1000) as nat) + fraction_text((millis % 1000) as nat) + "s"@
    }
}

fn fraction_string(n: u64) -> (r: String)
    requires
        n < 1000,
    ensures
        r@ == fraction_text(n as nat),
{
    if n == 0 {
        return "".to_owned();
    }
    let mut out = ".".to_owned();
    if n % 100 == 0 {
        push_decimal(&mut out, n / 100);
    } else if n % 10 == 0 {
        push_str(
            &mut out,
            if n < 100 {
                "0"
            } else {
                ""
            },
        );
        push_decimal(&mut out, n / 10);
    } else {
        push_str(
            &mut out,
            if n < 10 {
                "00"
            } else if n < 100 {
                "0"
            } else {
                ""
            },
        );
        push_decimal(&mut out, n);
    }
    out
}

/// A span of time as it is shown.
pub fn duration_string(millis: u64) -> (r: String)
    ensures
        r@ == duration_text(millis),
{
    if millis == 0 {
        return "0ns".to_owned();
    }
    let mut out = String::new();
    if millis < 1000 {
        push_decimal(&mut out, millis);
        assert(out@ =~= decimal(millis as nat));
        push_str(&mut out, "ms");
    } else {
        push_decimal(&mut out, millis / 1000);
        assert(out@ =~= decimal((millis / 1000) as nat));
        push_str(&mut out, &fraction_string(millis % 1000));
        push_str(&mut out, "s");
    }
    out
}

/// Three texts, one after the other.
fn three(a: &str, b: &str, c: &str) -> (r: String)
    ensures
        r@ == a@ + b@ + c@,
{
    let mut out = a.to_owned();
    push_str(&mut out, b);
    push_str(&mut out, c);
    out
}

/// What a failed command says: the command, its exit code and what it printed.
pub open spec fn exited_text(command: Seq<char>, code: Option<i32>, stderr: Seq<char>) -> Seq<char> {
    command + " exited with "@ + code_text(code) + ": "@ + stderr
}

fn exited(command: &str, code: Option<i32>, stderr: &str) -> (r: String)
    ensures
        r@ == exited_text(command@, code, stderr@),
{
    let mut out = three(command, " exited with ", &code_string(code));
    push_str(&mut out, ": ");
    push_str(&mut out, stderr);
    out
}

impl SchemaError {
    /// What the failure says.
    pub open spec fn text(&self) -> Seq<char> {
        match *self {
            SchemaError::UnsupportedVersion { found } => "unsupported schema_version "@ + decimal(
                found as nat,
            ) + " (this reader understands "@ + decimal(SCHEMA_VERSION as nat) + ")"@,
            SchemaError::Json(msg) => "invalid plan document: "@ + msg@,
        }
    }

    /// What the failure says.
    pub fn message(&self) -> (r: String)
        ensures
            r@ == self.text(),
    {
        match self {
            SchemaError::UnsupportedVersion { found } => {
                let mut out = "unsupported schema_version ".to_owned();
                push_decimal(&mut out, *found as u64);
                push_str(&mut out, " (this reader understands ");
                push_decimal(&mut out, SCHEMA_VERSION as u64);
                push_str(&mut out, ")");
                out
            },
            SchemaError::Json(msg) => {
                let mut out = "invalid plan document: ".to_owned();
                push_str(&mut out, msg);
                out
            },
        }
    }
}

impl LlmError {
    /// What the failure says.
    pub open spec fn text(&self) -> Seq<char> {
        match *self {
            LlmError::Spawn { command, msg } => "failed to spawn "@ + command@ + ": "@ + msg@,
            LlmError::Failed { command, code, stderr } => exited_text(command@, code, stderr@),
            LlmError::Empty { command } => command@ + " produced no output"@,
            LlmError::Timeout { command, timeout_millis } => command@ + " exceeded the "@
                + duration_text(timeout_millis) + " deadline and was killed"@,
            LlmError::Cancelled { command } => command@ + " was cancelled and killed"@,
            LlmError::Io { command, msg } => "io error talking to "@ + command@ + ": "@ + msg@,
        }
    }

    /// What the failure says.
    pub fn message(&self) -> (r: String)
        ensures
            r@ == self.text(),
    {
        match self {
            LlmError::Spawn { command, msg } => {
                let mut out = three("failed to spawn ", command, ": ");
                push_str(&mut out, msg);
                out
            },
            LlmError::Failed { command, code, stderr } => exited(command, *code, stderr),
            LlmError::Empty { command } => {
                let mut out = command.clone();
                push_str(&mut out, " produced no output");
                out
            },
            LlmError::Timeout { command, timeout_millis } => {
                let mut out = three(command, " exceeded the ", &duration_string(*timeout_millis));
                push_str(&mut out, " deadline and was killed");
                out
            },
            LlmError::Cancelled { command } => {
                let mut out = command.clone();
                push_str(&mut out, " was cancelled and killed");
                out
            },
            LlmError::Io { command, msg } => {
                let mut out = three("io error talking to ", command, ": ");
                push_str(&mut out, msg);
                out
            },
        }
    }
}

impl ForgeError {
    /// What the failure says.
    pub open spec fn text(&self) -> Seq<char> {
        match *self {
            ForgeError::Spawn { command, msg } => "failed to spawn "@ + command@ + ": "@ + msg@,
            ForgeError::Failed { command, code, stderr } => exited_text(command@, code, stderr@),
            ForgeError::Timeout { command, timeout_millis } => command@
                + " did not finish within "@ + duration_text(timeout_millis),
            ForgeError::Cancelled { command } => command@ + " was cancelled"@,
            ForgeError::Io { command, msg } => command@ + ": "@ + msg@,
            ForgeError::Parse { command, msg } => "could not read "@ + command@ + "'s answer: "@
                + msg@,
            ForgeError::NoRequest(msg) => msg@,
        }
    }

    /// What the failure says.
    pub fn message(&self) -> (r: String)
        ensures
            r@ == self.text(),
    {
        match self {
            ForgeError::Spawn { command, msg } => {
                let mut out = three("failed to spawn ", command, ": ");
                push_str(&mut out, msg);
                out
            },
            ForgeError::Failed { command, code, stderr } => exited(command, *code, stderr),
            ForgeError::Timeout { command, timeout_millis } => three(
                command,
                " did not finish within ",
                &duration_string(*timeout_millis),
            ),
            ForgeError::Cancelled { command } => {
                let mut out = command.clone();
                push_str(&mut out, " was cancelled");
                out
            },
            ForgeError::Io { command, msg } => three(command, ": ", msg),
            ForgeError::Parse { command, msg } => {
                let mut out = three("could not read ", command, "'s answer: ");
                push_str(&mut out, msg);
                out
            },
            ForgeError::NoRequest(msg) => msg.clone(),
        }
    }
}

impl EngineError {
    /// What the failure says.
    pub open spec fn text(&self) -> Seq<char> {
        match *self {
            EngineError::GitSpawn { msg } => "failed to spawn git: "@ + msg@,
            EngineError::GitCommand { command, code, stderr } => exited_text(
                command@,
                code,
                stderr@,
            ),
            EngineError::Parse { line, msg } => "diff parse error at line "@ + decimal(line as nat)
                + ": "@ + msg@,
            EngineError::NonUtf8Path { lossy } =>
            "path is not valid UTF-8 and cannot be serialised to JSON yet: "@ + debug_text(lossy@)
                + " (non-UTF-8 path support is deferred)"@,
            EngineError::Invariant(msg) => "invariant violated: "@ + msg@,
            EngineError::Config { path, msg } => "config error in "@ + path@ + ": "@ + msg@,
            EngineError::Schema(e) => "schema error: "@ + e.text(),
            EngineError::Range(msg) => msg@,
            EngineError::PlanIntegrity(msg) => "plan document is inconsistent: "@ + msg@,
            EngineError::Cache { path, msg } => "cache error at "@ + path@ + ": "@ + msg@,
            EngineError::GroupingParse { msg, sample } => "cannot read the grouping: "@ + msg@
                + "; the answer begins "@ + debug_text(sample@),
            EngineError::Llm(e) => e.text(),
            EngineError::Forge(e) => e.text(),
        }
    }

    /// What the failure says.
    pub fn message(&self) -> (r: String)
        ensures
            r@ == self.text(),
    {
        match self {
            EngineError::GitSpawn { msg } => {
                let mut out = "failed to spawn git: ".to_owned();
                push_str(&mut out, msg);
                out
            },
            EngineError::GitCommand { command, code, stderr } => exited(command, *code, stderr),
            EngineError::Parse { line, msg } => {
                let mut out = "diff parse error at line ".to_owned();
                push_decimal(&mut out, *line as u64);
                push_str(&mut out, ": ");
                push_str(&mut out, msg);
                out
            },
            EngineError::NonUtf8Path { lossy } => three(
                "path is not valid UTF-8 and cannot be serialised to JSON yet: ",
                &quoted(lossy),
                " (non-UTF-8 path support is deferred)",
            ),
            EngineError::Invariant(msg) => {
                let mut out = "invariant violated: ".to_owned();
                push_str(&mut out, msg);
                out
            },
            EngineError::Config { path, msg } => {
                let mut out = three("config error in ", path, ": ");
                push_str(&mut out, msg);
                out
            },
            EngineError::Schema(e) => {
                let mut out = "schema error: ".to_owned();
                push_str(&mut out, &e.message());
                out
            },
            EngineError::Range(msg) => msg.clone(),
            EngineError::PlanIntegrity(msg) => {
                let mut out = "plan document is inconsistent: ".to_owned();
                push_str(&mut out, msg);
                out
            },
            EngineError::Cache { path, msg } => {
                let mut out = three("cache error at ", path, ": ");
                push_str(&mut out, msg);
                out
            },
            EngineError::GroupingParse { msg, sample } => {
                let mut out = three("cannot read the grouping: ", msg, "; the answer begins ");
                push_str(&mut out, &quoted(sample));
                out
            },
            EngineError::Llm(e) => e.message(),
            EngineError::Forge(e) => e.message(),
        }
    }
}

} // verus!
