//! Grouped, ordered reading plans for large diffs.
use vstd::prelude::*;

pub mod agent;
pub mod apply;
pub mod artefact;
pub mod cli;
pub mod config;
pub mod document;
pub mod forge;
pub mod forgeio;
pub mod gitio;
pub mod grouping;
pub mod hash;
pub mod invariants;
pub mod json;
pub mod lang;
pub mod llm;
pub mod messages;
pub mod model;
pub mod ordering;
pub mod parse;
pub mod paths;
pub mod pipeline;
pub mod plan;
pub mod ports;
pub mod publishing;
pub mod rename_view;
pub mod review_identity;
pub mod review_session;
pub mod review_state;
pub mod schema;
pub mod seqs;
pub mod shape;
pub mod store;
pub mod subprocess;
pub mod text;
pub mod tree;
pub mod tui;
pub mod worktree;

verus! {

/// Everything that can go wrong in the engine.
#[derive(Debug, Clone, PartialEq)]
pub enum EngineError {
    /// git could not be started; the message says why.
    GitSpawn { msg: String },
    /// git ran and failed.
    GitCommand { command: String, code: Option<i32>, stderr: String },
    /// git's output could not be read.
    Parse { line: usize, msg: String },
    /// A path that is not UTF-8 and cannot be written to a document.
    NonUtf8Path { lossy: String },
    /// An internal rule does not hold.
    Invariant(String),
    /// A configuration file was refused.
    Config { path: String, msg: String },
    /// A document was refused.
    Schema(schema::SchemaError),
    /// A range could not be understood or resolved.
    Range(String),
    /// A document contradicts itself.
    PlanIntegrity(String),
    /// A cache or store could not be read or written.
    Cache { path: String, msg: String },
    /// The model's answer holds no grouping.
    GroupingParse { msg: String, sample: String },
    /// The model could not be asked.
    Llm(llm::LlmError),
    /// The forge refused or could not be reached.
    Forge(forge::ForgeError),
}

} // verus!
