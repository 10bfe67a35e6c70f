//! The model backend: one-shot completion, prompt in, raw text out.
//!
//! No streaming, no chat state, no conversation to manage. The model reads for
//! itself with the tools of the program that is run, so what crosses this seam is
//! still a prompt and a string.
use std::sync::atomic::AtomicBool;
use std::sync::Arc;
use vstd::prelude::*;

use crate::seqs::{join, join_texts, texts};
use crate::subprocess::{excerpt, start_of, Failure};
use crate::text::{lossy, lossy_text, push_str, str_eq, trim, trimmed_text};

verus! {

/// Why there is no completion.
#[derive(Debug, Clone, PartialEq, Eq)]
pub enum LlmError {
    Spawn { command: String, msg: String },
    Failed { command: String, code: Option<i32>, stderr: String },
    Empty { command: String },
    Timeout { command: String, timeout_millis: u64 },
    Cancelled { command: String },
    Io { command: String, msg: String },
}

/// One-shot completion: prompt in, raw text out.
pub trait LlmBackend: Send + Sync {
    /// What to call this agent on screen: a product name, not a command line.
    fn name(&self) -> &str;

    /// Everything about this backend that could change the grouping, and nothing
    /// that could not. The grouping cache key hashes this.
    fn identity(&self) -> &str {
        self.name()
    }

    fn complete(&self, prompt: &str) -> Result<String, LlmError>;
}

/// A subprocess backend: prompt on stdin, completion on stdout.
pub struct CommandBackend {
    pub argv: Vec<String>,
    pub timeout_millis: u64,
    /// What a reader is shown.
    pub name: String,
    /// The argv as it will actually run, for error text only.
    pub command: String,
    /// What the cache key hashes.
    pub identity: String,
    /// Where the child runs. The prompt names paths relative to the repository
    /// root, and git resolves a bare path against the current directory. `None`
    /// inherits.
    pub working_dir: Option<String>,
    /// Set from another thread to kill a child in flight.
    pub cancel: Option<Arc<AtomicBool>>,
}

/// The command line of the default agent, whose document is fetched with `fetch`:
/// headless, text output, and tools that only read.
pub open spec fn claude_words(program: Seq<char>, fetch: Seq<char>) -> Seq<Seq<char>> {
    seq![program, "-p"@, "--output-format"@, "text"@, "--allowed-tools"@, allowlist(fetch)]
}

/// What the default agent may do: run the fetch command, and read.
pub open spec fn allowlist(fetch: Seq<char>) -> Seq<char> {
    "Bash("@ + fetch
        + " agent:*),Bash(git diff:*),Read,Grep,Glob,Bash(git log:*),Bash(git show:*)"@
}

/// How long the default agent may think.
pub const AGENT_TIMEOUT_MILLIS: u64 = 1_200_000;

/// How much of what a failed command printed is shown.
pub const SHOWN_ERROR_BYTES: usize = 600;

impl CommandBackend {
    /// A backend named by its own command line.
    pub fn new(argv: Vec<String>, timeout_millis: u64) -> (r: Self)
        requires
            argv@.len() > 0,
        ensures
            r.argv == argv,
            r.timeout_millis == timeout_millis,
            r.name@ == join(texts(argv@), ' '),
            r.command@ == r.name@,
            r.identity@ == r.name@,
            r.working_dir is None,
            r.cancel is None,
    {
        let command = join_texts(&argv, ' ');
        CommandBackend {
            argv,
            timeout_millis,
            name: command.clone(),
            identity: command.clone(),
            command,
            working_dir: None,
            cancel: None,
        }
    }

    /// Run the child in `dir`.
    pub fn with_working_dir(self, dir: &str) -> (r: Self)
        ensures
            r.working_dir matches Some(d) && d@ == dir@,
            r == (CommandBackend { working_dir: r.working_dir, ..self }),
    {
        let mut b = self;
        b.working_dir = Some(dir.to_owned());
        b
    }

    /// Kill the child as soon as `flag` is set.
    pub fn with_cancel(self, flag: Arc<AtomicBool>) -> (r: Self)
        ensures
            r == (CommandBackend { cancel: Some(flag), ..self }),
    {
        let mut b = self;
        b.cancel = Some(flag);
        b
    }

    pub fn with_timeout(self, timeout_millis: u64) -> (r: Self)
        ensures
            r == (CommandBackend { timeout_millis, ..self }),
    {
        let mut b = self;
        b.timeout_millis = timeout_millis;
        b
    }

    /// What to call this agent on screen.
    pub fn name(&self) -> (r: &str)
        ensures
            r@ == self.name@,
    {
        self.name.as_str()
    }

    /// What the cache key hashes.
    pub fn identity(&self) -> (r: &str)
        ensures
            r@ == self.identity@,
    {
        self.identity.as_str()
    }

    /// The default agent: the program that is run, and what it is called on screen.
    /// `fetch` is the executable that the prompt tells the model to run; the allowlist
    /// is derived from it, so the two cannot disagree.
    ///
    /// Where a binary lives says nothing about what the model will do, so the cache
    /// identity stands a placeholder in its place: change the allowlist and every
    /// cached grouping is invalidated, move the binary and none of them are.
    pub fn claude_cli(program: &str, title: &str, fetch: &str) -> (r: Self)
        ensures
            texts(r.argv@) == claude_words(program@, fetch@),
            r.command@ == join(claude_words(program@, fetch@), ' '),
            r.name@ == title@,
            r.identity@ == join(claude_words(program@, "<fetch>"@), ' '),
            r.timeout_millis == AGENT_TIMEOUT_MILLIS,
            r.working_dir is None,
            r.cancel is None,
    {
        let mut b = Self::new(Self::claude_argv(program, fetch), AGENT_TIMEOUT_MILLIS);
        b.name = title.to_owned();
        b.identity = join_texts(&Self::claude_argv(program, "<fetch>"), ' ');
        b
    }

    fn claude_argv(program: &str, fetch: &str) -> (r: Vec<String>)
        ensures
            texts(r@) == claude_words(program@, fetch@),
            r@.len() > 0,
    {
        let mut tools = "Bash(".to_owned();
        push_str(&mut tools, fetch);
        push_str(
            &mut tools,
            " agent:*),Bash(git diff:*),Read,Grep,Glob,Bash(git log:*),Bash(git show:*)",
        );
        let mut argv: Vec<String> = Vec::new();
        argv.push(program.to_owned());
        argv.push("-p".to_owned());
        argv.push("--output-format".to_owned());
        argv.push("text".to_owned());
        argv.push("--allowed-tools".to_owned());
        argv.push(tools);
        assert(texts(argv@) =~= claude_words(program@, fetch@));
        argv
    }

    /// How a child that gave no output is told.
    pub fn failure(&self, f: Failure) -> (r: LlmError)
        ensures
            match f {
                Failure::Spawn(m) => r matches LlmError::Spawn { command, msg } && command@
                    == self.command@ && msg == m,
                Failure::Io(m) => r matches LlmError::Io { command, msg } && command@
                    == self.command@ && msg == m,
                Failure::Timeout => r matches LlmError::Timeout { command, timeout_millis }
                    && command@ == self.command@ && timeout_millis == self.timeout_millis,
                Failure::Cancelled => r matches LlmError::Cancelled { command } && command@
                    == self.command@,
            },
    {
        let command = self.command.clone();
        match f {
            Failure::Spawn(msg) => LlmError::Spawn { command, msg },
            Failure::Io(msg) => LlmError::Io { command, msg },
            Failure::Timeout => LlmError::Timeout {
                command,
                timeout_millis: self.timeout_millis,
            },
            Failure::Cancelled => LlmError::Cancelled { command },
        }
    }

    /// The completion that a finished child gave: its output, unless it failed or
    /// printed nothing but white space.
    pub fn judge(&self, success: bool, code: Option<i32>, stdout: &[u8], stderr: &[u8]) -> (r:
        Result<String, LlmError>)
        ensures
            if !success {
                r matches Err(LlmError::Failed { command, code: c, stderr: text }) && command@
                    == self.command@ && c == code && text@ == lossy_text(
                    start_of(stderr@, SHOWN_ERROR_BYTES as nat),
                )
            } else if trim(lossy_text(stdout@)).len() == 0 {
                r matches Err(LlmError::Empty { command }) && command@ == self.command@
            } else {
                r matches Ok(text) && text@ == lossy_text(stdout@)
            },
    {
        if !success {
            return Err(
                LlmError::Failed {
                    command: self.command.clone(),
                    code,
                    stderr: excerpt(stderr, SHOWN_ERROR_BYTES),
                },
            );
        }
        let text = lossy(stdout);
        proof {
            reveal_strlit("");
            assert(trim(text@).len() == 0 ==> trim(text@) =~= ""@);
        }
        if str_eq(&trimmed_text(&text), "") {
            return Err(LlmError::Empty { command: self.command.clone() });
        }
        Ok(text)
    }
}

/// Where the fetch command lives is no part of the cache identity: two default
/// agents with different fetch commands have one identity.
pub proof fn law_identity_is_independent_of_the_fetch_command(
    a: CommandBackend,
    b: CommandBackend,
    program: &str,
    title: &str,
    x: &str,
    y: &str,
)
    requires
        call_ensures(CommandBackend::claude_cli, (program, title, x), a),
        call_ensures(CommandBackend::claude_cli, (program, title, y), b),
    ensures
        a.identity@ == b.identity@,
{
}

} // verus!
