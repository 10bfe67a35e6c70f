//! Data model for the canonical diff view.
//!
//! Paths are raw bytes throughout the engine; they become UTF-8 strings only
//! where a document is written.
use vstd::prelude::*;

verus! {

/// One line's content, without its newline. A split into lines keeps the
/// trailing empty element that encodes "ends with a newline".
pub type Line = Vec<u8>;

/// What happened to a file.
#[derive(Debug, Clone, Copy, PartialEq, Eq, Structural)]
pub enum Disposition {
    Added,
    Deleted,
    Modified,
}

impl Disposition {
    /// The letter that stands for the disposition in a shape key.
    pub open spec fn letter_of(self) -> u8 {
        match self {
            Disposition::Added => 65u8,
            Disposition::Deleted => 68u8,
            Disposition::Modified => 77u8,
        }
    }

    /// `A`, `D` or `M`.
    pub fn letter(self) -> (r: u8)
        ensures
            r == self.letter_of(),
    {
        match self {
            Disposition::Added => 65u8,
            Disposition::Deleted => 68u8,
            Disposition::Modified => 77u8,
        }
    }
}

/// One changed file in the canonical (`--no-renames`) view. Exists independently
/// of hunks: empty-file adds and deletes, mode-only changes and binary files
/// carry zero hunks but are still real changes.
#[derive(Debug, Clone)]
pub struct FileChange {
    pub path: Vec<u8>,
    pub disposition: Disposition,
    /// "100644" etc. New-side mode; `None` for deletions.
    pub new_mode: Option<String>,
    /// Old-side mode when it differs, and for deletions.
    pub old_mode: Option<String>,
    pub binary: bool,
    /// `Some((old, new))` commit ids for gitlink (mode 160000) changes.
    pub submodule: Option<(Option<String>, Option<String>)>,
    /// Full blob ids from the raw record.
    pub old_oid: Option<String>,
    pub new_oid: Option<String>,
    /// Indices into the canonical hunk vector, in file order.
    pub hunks: Vec<usize>,
    pub rename_similarity: Option<u8>,
    /// A side of a rename: where the content came from.
    pub rename_from: Option<Vec<u8>>,
    /// D side of a rename: where the content went.
    pub rename_to: Option<Vec<u8>>,
    /// Generated-file hint (never affects enumeration).
    pub generated: Option<GeneratedBy>,
}

/// Who declared a file generated.
#[derive(Debug, Clone, Copy, PartialEq, Eq, Structural)]
pub enum GeneratedBy {
    Builtin,
    Attr,
    Config,
}

/// One canonical hunk from `git diff -U0 --no-renames`.
#[derive(Debug, Clone)]
pub struct Hunk {
    /// Index into the canonical file vector.
    pub file: usize,
    pub old_start: u32,
    pub old_count: u32,
    pub new_start: u32,
    pub new_count: u32,
    /// Removed lines, without prefix or newline.
    pub removed: Vec<Line>,
    /// Added lines, without prefix or newline.
    pub added: Vec<Line>,
    /// The old side ends without a newline.
    pub nonl_old: bool,
    /// The new side ends without a newline.
    pub nonl_new: bool,
}

/// The canonical enumeration: every file, every hunk, no exclusions.
#[derive(Debug, Clone)]
pub struct DiffView {
    pub files: Vec<FileChange>,
    /// Canonical order: file order in the diff, hunk order within each file.
    /// A hunk's id `hN` is its index here.
    pub hunks: Vec<Hunk>,
}

impl Default for DiffView {
    fn default() -> (r: Self)
        ensures
            r.files@.len() == 0,
            r.hunks@.len() == 0,
    {
        DiffView { files: Vec::new(), hunks: Vec::new() }
    }
}

impl DiffView {
    /// Whether every hunk names a file of the view.
    pub open spec fn wf(&self) -> bool {
        forall|i: int| 0 <= i < self.hunks@.len() ==> (#[trigger] self.hunks@[i]).file < self.files@.len()
    }

    /// The file a hunk belongs to.
    pub fn file_of(&self, hunk: &Hunk) -> (r: &FileChange)
        requires
            hunk.file < self.files@.len(),
        ensures
            *r == self.files@[hunk.file as int],
    {
        &self.files[hunk.file]
    }
}

} // verus!
