//! One child process under a deadline and a cancel flag: what to run, when to give
//! up on it, and how its failure is told. Running it is the caller's.
use std::sync::atomic::AtomicBool;
use std::sync::Arc;
use vstd::prelude::*;

use crate::seqs::{join, join_texts, texts};
use crate::text::{lossy, lossy_text, trim, trimmed_text};

verus! {

/// What to run and how long to wait for it.
pub struct Run<'a> {
    pub argv: &'a Vec<String>,
    pub stdin: Option<&'a [u8]>,
    /// `None` inherits this process's directory.
    pub working_dir: Option<&'a str>,
    pub timeout_millis: u64,
    /// Set from another thread to kill the child early.
    pub cancel: Option<&'a Arc<AtomicBool>>,
}

/// The child's whole output. The status is not judged here: a non-zero exit means
/// one thing to a completion and another to a question.
#[derive(Debug)]
pub struct Output {
    pub success: bool,
    pub code: Option<i32>,
    pub stdout: Vec<u8>,
    pub stderr: Vec<u8>,
}

/// Why there is no output. The command that failed is the caller's to name.
#[derive(Debug, Clone, PartialEq, Eq)]
pub enum Failure {
    Spawn(String),
    Io(String),
    Timeout,
    Cancelled,
}

/// The argv as a reader debugs it.
pub fn describe(argv: &Vec<String>) -> (r: String)
    ensures
        r@ == join(texts(argv@), ' '),
{
    join_texts(argv, ' ')
}

/// What the watchdog does next.
#[derive(Debug, Clone, PartialEq, Eq)]
pub enum Watch {
    /// The child is done: take its output.
    Finish,
    /// Kill the child and report why.
    GiveUp(Failure),
    /// Look again later.
    Wait,
}

/// One look of the watchdog. A child that is done is never given up on, and a
/// cancellation is told as one though the deadline has passed too.
pub fn watch(exited: bool, cancelled: bool, past_deadline: bool) -> (r: Watch)
    ensures
        r == (if exited {
            Watch::Finish
        } else if cancelled {
            Watch::GiveUp(Failure::Cancelled)
        } else if past_deadline {
            Watch::GiveUp(Failure::Timeout)
        } else {
            Watch::Wait
        }),
{
    if exited {
        Watch::Finish
    } else if cancelled {
        Watch::GiveUp(Failure::Cancelled)
    } else if past_deadline {
        Watch::GiveUp(Failure::Timeout)
    } else {
        Watch::Wait
    }
}

/// The first `limit` bytes; all of them where there are no more.
pub open spec fn start_of(bytes: Seq<u8>, limit: nat) -> Seq<u8> {
    if bytes.len() <= limit {
        bytes
    } else {
        bytes.take(limit as int)
    }
}

/// The first `limit` bytes as text.
pub fn excerpt(bytes: &[u8], limit: usize) -> (r: String)
    ensures
        r@ == lossy_text(start_of(bytes@, limit as nat)),
{
    let mut shown: Vec<u8> = Vec::new();
    let n: usize = if bytes.len() <= limit {
        bytes.len()
    } else {
        limit
    };
    for i in 0..n
        invariant
            n <= bytes@.len(),
            shown@ == bytes@.take(i as int),
    {
        shown.push(bytes[i]);
        assert(shown@ =~= bytes@.take(i + 1));
    }
    assert(bytes@.take(bytes@.len() as int) =~= bytes@);
    lossy(shown.as_slice())
}

/// The first `limit` bytes of what a child printed as text, for an error message.
pub fn stderr_excerpt(stderr: &[u8], limit: usize) -> (r: String)
    ensures
        r@ == trim(lossy_text(start_of(stderr@, limit as nat))),
{
    trimmed_text(&excerpt(stderr, limit))
}

} // verus!
