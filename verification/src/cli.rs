//! What a command line asks for, and the lines that it is answered with.
use vstd::prelude::*;

use crate::config::GroupingConfig;
use crate::llm::{claude_words, CommandBackend, AGENT_TIMEOUT_MILLIS};
use crate::plan::{short_oid, shortened};
use crate::seqs::{join, join_texts, texts};
use crate::text::push_str;

verus! {

/// What is to be done.
#[derive(Debug, Clone, Copy, PartialEq, Eq, Structural)]
pub enum Task {
    /// Run the pipeline and report the invariants.
    Check,
    /// Open the terminal screen over the reading plan.
    Review,
    /// Print the findings of a review.
    Findings,
    /// Print what the grouping model may group, from a document.
    Agent,
}

/// What a task starts from.
#[derive(Debug, Clone, Copy, PartialEq, Eq, Structural)]
pub enum Start {
    /// A document: no repository and no range.
    Document,
    /// The range that was given.
    Range,
    /// What the reader picks on the screen.
    Pick,
    /// Nothing: the task needs a range and none was given.
    Refused,
}

/// What a task without a range is refused with.
pub const RANGE_REQUIRED: &'static str =
    "a revision range is required: <base>..<head>, <a>...<b>, or two revs";

/// What a task starts from. Only a review may leave the range out: it opens the
/// picker instead.
pub fn start_of(task: Task, range: &Vec<String>) -> (r: Start)
    ensures
        r == (if task == Task::Agent {
            Start::Document
        } else if range@.len() > 0 {
            Start::Range
        } else if task == Task::Review {
            Start::Pick
        } else {
            Start::Refused
        }),
{
    if task == Task::Agent {
        Start::Document
    } else if range.len() > 0 {
        Start::Range
    } else if task == Task::Review {
        Start::Pick
    } else {
        Start::Refused
    }
}

/// The range as it was typed, to be handed back; a picked source has no spelling.
pub fn typed_range(range: &Vec<String>) -> (r: Option<String>)
    ensures
        match r {
            Some(s) => range@.len() > 0 && s@ == join(texts(range@), ' '),
            None => range@.len() == 0,
        },
{
    if range.len() == 0 {
        None
    } else {
        Some(join_texts(range, ' '))
    }
}

/// The base that a review is filed under: its own if it has one, else that of the
/// range.
pub fn review_base(identity_base: Option<String>, base: &str) -> (r: String)
    ensures
        r@ == (match identity_base {
            Some(own) => own@,
            None => base@,
        }),
{
    match identity_base {
        Some(own) => own,
        None => base.to_owned(),
    }
}

/// The line that names the range.
pub open spec fn range_text(base: Seq<char>, head: Seq<char>) -> Seq<char> {
    "range      "@ + shortened(base) + ".."@ + shortened(head)
}

/// The line that names the range.
pub fn range_line(base: &str, head: &str) -> (r: String)
    ensures
        r@ == range_text(base@, head@),
{
    let mut out = "range      ".to_owned();
    push_str(&mut out, &short_oid(base));
    push_str(&mut out, "..");
    push_str(&mut out, &short_oid(head));
    out
}

/// Seconds in milliseconds, as far as they can be told.
pub open spec fn millis_of(secs: u64) -> u64 {
    if secs * 1000 <= u64::MAX {
        (secs * 1000) as u64
    } else {
        u64::MAX
    }
}

/// The agent that the configuration asks for: the command that it names, else the
/// default agent, and the time that it allows.
pub fn backend_from(cfg: &GroupingConfig, program: &str, title: &str, fetch: &str) -> (r:
    CommandBackend)
    ensures
        match cfg.command {
            Some(words) if words@.len() > 0 => {
                &&& texts(r.argv@) == texts(words@)
                &&& r.name@ == join(texts(words@), ' ')
                &&& r.identity@ == r.name@
                &&& r.command@ == r.name@
            },
            _ => {
                &&& texts(r.argv@) == claude_words(program@, fetch@)
                &&& r.name@ == title@
                &&& r.identity@ == join(claude_words(program@, "<fetch>"@), ' ')
                &&& r.command@ == join(claude_words(program@, fetch@), ' ')
            },
        },
        r.timeout_millis == (match cfg.timeout_secs {
            Some(secs) => millis_of(secs),
            None => AGENT_TIMEOUT_MILLIS,
        }),
        r.working_dir is None,
        r.cancel is None,
{
    let backend = match &cfg.command {
        Some(words) if words.len() > 0 => CommandBackend::new(
            crate::text::copy_texts(words),
            AGENT_TIMEOUT_MILLIS,
        ),
        _ => CommandBackend::claude_cli(program, title, fetch),
    };
    match cfg.timeout_secs {
        Some(secs) => backend.with_timeout(
            match secs.checked_mul(1000) {
                Some(m) => m,
                None => u64::MAX,
            },
        ),
        None => backend,
    }
}

} // verus!
