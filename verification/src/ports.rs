//! What the library asks of the world and leaves to its caller: git, and the places
//! where reviews and groupings are kept.
//!
//! Nothing is promised of an implementation. Whatever it answers, the functions that
//! ask hand the answer on, and say in their contracts what they asked.
use vstd::prelude::*;

use crate::artefact::symbols::FileSymbols;
use crate::forge::ReviewIdentity;
use crate::gitio::{AttrValue, IndexEntry};
use crate::review_identity::FiledReview;
use crate::review_state::{Finding, ReviewState};
use crate::schema::PlanDocument;
use crate::EngineError;

verus! {

/// One review's sidecar: its plans, its findings and its state.
pub trait ReviewStore {
    /// Keep a plan document under its hash, and make it the current one.
    fn save_plan(&self, hash: &str, json: &str) -> Result<(), EngineError>;

    /// The state on file; the default one where there is none.
    fn load_state(&self) -> Result<ReviewState, EngineError>;

    fn save_state(&self, state: &ReviewState) -> Result<(), EngineError>;

    /// The findings on file; none where there is no file.
    fn load_findings(&self) -> Result<Vec<Finding>, EngineError>;

    fn save_findings(&self, findings: &Vec<Finding>) -> Result<(), EngineError>;
}

/// The reviews on file.
pub trait ReviewCatalogue {
    fn filed_reviews(&self) -> Result<Vec<FiledReview>, EngineError>;

    /// Where a review was joined to, if it was.
    fn alias_of(&self, id: &str) -> Result<Option<String>, EngineError>;

    /// Keep that a review is joined to another.
    fn file_alias(&self, from: &str, to: &str) -> Result<(), EngineError>;

    /// Keep what a review was opened as.
    fn file_identity(&self, id: &str, opened_as: &ReviewIdentity) -> Result<(), EngineError>;
}

/// What places commits on lines of history.
pub trait Ancestry {
    /// The commit that a revision names; `None` where it names none.
    fn commit_of(&self, rev: &str) -> Result<Option<String>, EngineError>;

    /// Whether one commit is reachable from another.
    fn is_ancestor(&self, a: &str, b: &str) -> Result<bool, EngineError>;
}

/// Where raw answers of the model are kept.
pub trait GroupingCache {
    /// The answer under a key; `None` where there is none.
    fn get(&self, key: &str) -> Result<Option<String>, EngineError>;

    fn put(&self, key: &str, response: &str) -> Result<(), EngineError>;
}

/// Where a document is put for the model to read.
pub trait ArtefactStore {
    /// Put a document where the model can read it, and return the path.
    fn make_readable(&self, doc: &PlanDocument) -> Result<String, EngineError>;
}

/// What a range needs of git.
pub trait RangeResolver {
    /// The best common ancestor of two revisions.
    fn merge_base(&self, a: &str, b: &str) -> Result<String, EngineError>;

    /// The commit that a revision names, or the tree where it names none.
    fn resolve_endpoint(&self, rev: &str) -> Result<String, EngineError>;
}

/// What turns a revision into its tree.
pub trait TreeResolver {
    fn tree_of(&self, rev: &str) -> Result<String, EngineError>;
}

/// The three listings of a range. Their argument lists are frozen.
pub trait DiffSource {
    fn raw_records(&self, base: &str, head: &str) -> Result<Vec<u8>, EngineError>;

    fn canonical_patch(&self, base: &str, head: &str) -> Result<Vec<u8>, EngineError>;

    fn rename_records(&self, base: &str, head: &str) -> Result<Vec<u8>, EngineError>;
}

/// The patch that the recount counts. Never the one that is parsed: a change to one
/// cannot move both sides of the comparison.
pub trait RecountSource {
    fn recount_patch(&self, from: &str, to: &str) -> Result<Vec<u8>, EngineError>;
}

/// What reads objects.
pub trait ObjectReader {
    /// The content at a path of a revision; `None` where the path is absent.
    fn blob(&self, rev: &str, path: &[u8]) -> Result<Option<Vec<u8>>, EngineError>;

    /// Fails unless the object exists.
    fn require_object(&self, oid: &str) -> Result<(), EngineError>;
}

/// What writes objects.
pub trait ObjectWriter {
    /// Write content, and return the id that it has.
    fn write_blob(&self, content: &[u8]) -> Result<String, EngineError>;
}

/// What answers for attributes.
pub trait AttributeSource {
    /// The values of an attribute on some paths.
    fn check_attr(&self, attr: &str, paths: &[&[u8]]) -> Result<Vec<AttrValue>, EngineError>;
}

/// What finds the symbols of a file.
pub trait SymbolReader {
    /// The symbols of a file with some content; `None` for a language that nothing
    /// reads.
    fn of_file(&self, path: &[u8], content: &[u8]) -> Option<FileSymbols>;
}

/// A scratch index: never the user's own.
pub trait IndexSession: Sized {
    /// Stage some entries.
    fn stage(self, entries: &Vec<IndexEntry>) -> Result<Self, EngineError>;

    /// Stage what the worktree holds at some paths, each with a zero behind it; a
    /// path that is gone is removed.
    fn stage_from_worktree(self, nul_paths: &[u8]) -> Result<Self, EngineError>;

    /// The tree that the index describes.
    fn write_tree(&self) -> Result<String, EngineError>;
}

/// What builds trees without touching the user's index.
pub trait TreeBuilder {
    type Session: IndexSession;

    /// A session on the entries of a tree.
    fn begin_from_tree(&self, tree_ish: &str) -> Result<Self::Session, EngineError>;

    /// A session on the entries of the current index.
    fn begin_from_current_index(&self) -> Result<Self::Session, EngineError>;
}

/// The paths of the working copy, each with a zero behind it.
pub trait WorkingCopy {
    fn tracked_paths(&self) -> Result<Vec<u8>, EngineError>;

    fn untracked_paths(&self) -> Result<Vec<u8>, EngineError>;
}

} // verus!
