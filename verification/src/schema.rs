//! The frozen contract of reading plans: every consumer depends on these types.
//!
//! - `schema_version` is 1. Readers must reject versions they do not know.
//! - `groups` and `reading_plan` are `None` when the grouping stage has not run.
//!   That is distinct from an empty list, which would mean "grouping ran and
//!   produced nothing" and is always a bug. `generator.stages` states exactly
//!   which stages produced the document.
use vstd::prelude::*;

use crate::seqs::texts;
use crate::text::str_eq;

verus! {

pub const SCHEMA_VERSION: u32 = 1;

/// The one JSON document: a grouped, ordered reading plan for a diff.
#[derive(Debug, Clone, PartialEq)]
pub struct PlanDocument {
    pub schema_version: u32,
    pub generator: Generator,
    pub source: Source,
    pub stats: Stats,
    pub files: Vec<FileEntry>,
    pub hunks: Vec<HunkEntry>,
    pub classes: Vec<ClassEntry>,
    /// `None` until the grouping stage runs. `Some(vec![])` is a bug, not a state.
    pub groups: Option<Vec<Group>>,
    /// `None` until the grouping stage runs; ordered foundation-first once present.
    pub reading_plan: Option<Vec<ReadingStep>>,
    pub audit: Audit,
}

#[derive(Debug, Clone, PartialEq)]
pub struct Generator {
    pub tool: String,
    pub version: String,
    /// Pipeline stages that actually ran, in order: "enumerate", "classify",
    /// "group", "order".
    pub stages: Vec<String>,
}

#[derive(Debug, Clone, PartialEq)]
pub struct Source {
    pub kind: SourceKind,
    /// Fully resolved commit sha — a raw tree oid for `staged`/`worktree`
    /// sources, whose endpoints are synthesized snapshots of uncommitted
    /// state.
    pub base: String,
    /// Fully resolved commit sha — a raw tree oid for `staged`/`worktree`
    /// sources (see `base`).
    pub head: String,
    pub remote: Option<Remote>,
}

#[derive(Debug, Clone, Copy, PartialEq, Eq, Structural)]
pub enum SourceKind {
    Commit,
    Range,
    Mr,
    Pr,
    /// HEAD vs the index (additive in schema v1).
    Staged,
    /// The index vs the worktree (additive in schema v1).
    Worktree,
}

#[derive(Debug, Clone, PartialEq)]
pub struct Remote {
    pub forge: String,
    pub project: String,
    pub id: String,
}

#[derive(Debug, Clone, PartialEq)]
pub struct Stats {
    pub files: u32,
    pub hunks: u32,
    pub classes: u32,
    pub binary_files: u32,
    pub submodules: u32,
}

/// One changed file in the canonical (`--no-renames`) view. A rename therefore
/// appears as a D entry plus an A entry; the rename-detected view annotates both.
#[derive(Debug, Clone, PartialEq)]
pub struct FileEntry {
    pub path: String,
    pub disposition: Disposition,
    /// New-side mode ("100644", "100755", "120000", "160000"); `None` on deletion.
    pub mode: Option<String>,
    /// Old-side mode when it differs from `mode`, and on deletion.
    pub old_mode: Option<String>,
    /// On the A side of a detected rename: where the content came from.
    pub old_path: Option<String>,
    /// On the D side of a detected rename: where the content went. Together with
    /// `old_path` this makes "moved and modified" addressable from both ends.
    pub new_path: Option<String>,
    /// Similarity score 0-100 from git's rename detection. Present on both sides of
    /// a detected rename. Below ~95 the change is a modification, not a relocation,
    /// and must never be treated as skim-eligible.
    pub rename_similarity: Option<u8>,
    /// Binary files carry zero hunks; content is tracked by object id only.
    pub binary: bool,
    pub submodule: Option<SubmoduleChange>,
    /// Hint for the noise tier. Computed (builtin list, gitattributes, repo config),
    /// never claimed by a model.
    pub generated: bool,
    pub generated_by: Option<GeneratedBy>,
    /// Ids into `hunks`, in file order.
    pub hunk_ids: Vec<String>,
}

#[derive(Debug, Clone, Copy, PartialEq, Eq, Structural)]
pub enum Disposition {
    A,
    D,
    M,
}

#[derive(Debug, Clone, PartialEq)]
pub struct SubmoduleChange {
    pub old: Option<String>,
    pub new: Option<String>,
}

#[derive(Debug, Clone, Copy, PartialEq, Eq, Structural)]
pub enum GeneratedBy {
    /// Matched the built-in lockfile/artefact list.
    Builtin,
    /// Declared by the repo via a gitattributes attribute (e.g. linguist-generated).
    Attr,
    /// Matched a glob in the repo's `.differential.toml`.
    Config,
}

/// One canonical hunk from `git diff -U0 --no-renames`. Ids are positional
/// (`h0..hN` in enumeration order) and do NOT survive regeneration; `digest` does.
#[derive(Debug, Clone, PartialEq)]
pub struct HunkEntry {
    pub id: String,
    pub file: String,
    pub old_start: u32,
    pub old_count: u32,
    pub new_start: u32,
    pub new_count: u32,
    /// Shape class id into `classes`.
    pub class: String,
    /// Exact content hash of the hunk (removed ++ added bytes, un-normalised).
    /// The stable anchor for comments and review state across regenerations.
    pub digest: String,
    /// `\ No newline at end of file` on the old side.
    pub nonl_old: bool,
    /// `\ No newline at end of file` on the new side.
    pub nonl_new: bool,
    /// Position in the forge's rename-detected diff, for posting comments.
    pub forge_position: ForgePosition,
}

#[derive(Debug, Clone, PartialEq)]
pub struct ForgePosition {
    /// Line in the new file; `None` for deletion-only hunks.
    pub new_line: Option<u32>,
    /// Line in the old file; `None` for insertion-only hunks.
    pub old_line: Option<u32>,
}

/// A shape class: hunks whose diff text is identical after normalising away
/// identifiers and literals on BOTH sides. Ids `C0..Cn`, numbered by descending
/// member count. 100% hunk coverage is by construction.
#[derive(Debug, Clone, PartialEq)]
pub struct ClassEntry {
    pub id: String,
    pub hunk_ids: Vec<String>,
    /// The member a reader reads to verify the whole class.
    pub exemplar: String,
    /// True iff, after erasing identifiers and literals, the removed and added
    /// lines match: a structure-free substitution. Computed, never claimed.
    pub pure_substitution: bool,
    /// Symbols that the class introduces.
    pub defines: Vec<String>,
    /// The classes that this one consumes.
    pub depends_on: Vec<ClassEdge>,
}

/// One definition-to-use edge between classes, with the symbols that drew it.
#[derive(Debug, Clone, PartialEq)]
pub struct ClassEdge {
    pub on: String,
    pub via: Vec<String>,
}

/// Which token on which line resolves to which declaration.
#[derive(Debug, Clone, PartialEq)]
pub struct SymbolIndex {
    pub definitions: Vec<SymbolDef>,
    pub uses: Vec<SymbolUse>,
}

/// One declaration.
#[derive(Debug, Clone, PartialEq)]
pub struct SymbolDef {
    pub id: String,
    pub name: String,
    pub file: String,
    pub line: u32,
    pub through: u32,
    pub start: u32,
    pub end: u32,
    pub class: String,
}

/// One token that resolves to a declaration.
#[derive(Debug, Clone, PartialEq)]
pub struct SymbolUse {
    pub on: String,
    pub file: String,
    pub line: u32,
    pub start: u32,
    pub end: u32,
}

/// A merged, labelled group of shape classes. Produced by the grouping stage.
#[derive(Debug, Clone, PartialEq)]
pub struct Group {
    pub id: String,
    pub label: String,
    pub description: String,
    pub reason: String,
    pub effort: Effort,
    /// `None` until the ordering stage runs — role is an ordering-stage output.
    pub role: Option<Role>,
    pub class_ids: Vec<String>,
    /// Group ids this group depends on (it consumes what they define).
    pub depends_on: Vec<String>,
    /// Position in the foundation-first ordering.
    pub rank: u32,
}

#[derive(Debug, Clone, Copy, PartialEq, Eq, Structural)]
pub enum Effort {
    /// Read every hunk.
    Focus,
    /// Read one exemplar per shape class; trust the rest.
    Skim,
    /// Generated content: folded entirely, no exemplars to read.
    Noise,
}

#[derive(Debug, Clone, Copy, PartialEq, Eq, Structural)]
pub enum Role {
    Foundation,
    Consumer,
    Mechanical,
    Noise,
}

#[derive(Debug, Clone, PartialEq)]
pub struct ReadingStep {
    pub group: String,
    pub action: ReadAction,
}

#[derive(Debug, Clone, Copy, PartialEq, Eq, Structural)]
pub enum ReadAction {
    /// Read every hunk in the group.
    Read,
    /// Read one hunk per shape class.
    Exemplars,
    /// Remaining members of already-verified shapes.
    Skip,
    /// Noise group: collapsed entirely.
    Fold,
}

/// A share of the hunks that were offered to the grouping stage.
#[derive(Debug, Clone, Copy, PartialEq, Eq, Structural)]
pub struct Coverage {
    pub assigned: usize,
    pub offered: usize,
}

/// Structural audit. The first four fields exist for every document; the rest are
/// `null` until the grouping stage runs.
#[derive(Debug, Clone, PartialEq)]
pub struct Audit {
    /// "n/n" — files reconstructed byte-exactly from base + hunks.
    pub applier_exact: String,
    /// "pass" — built-from-hunks tree equals the head tree.
    pub tree_assertion: String,
    pub hunks_carried: u32,
    /// Independent `@@` recount computed from git output, not from bookkeeping.
    pub recount: u32,
    /// Model-assigned hunks of the offered ones, before the back-fill.
    pub coverage: Option<Coverage>,
    pub classes_missing: Option<u32>,
    pub classes_duplicated: Option<Vec<String>>,
    pub classes_hallucinated: Option<Vec<String>>,
    /// Hunks a reader actually reads (focus + exemplars). The honest number.
    pub read_hunks: Option<u32>,
    /// Hunks never opened (skim remainders + folded noise). The genuine saving.
    pub skipped_hunks: Option<u32>,
}

/// What a group says.
pub struct GroupContent {
    pub id: Seq<char>,
    pub label: Seq<char>,
    pub description: Seq<char>,
    pub reason: Seq<char>,
    pub effort: Effort,
    pub role: Option<Role>,
    pub class_ids: Seq<Seq<char>>,
    pub depends_on: Seq<Seq<char>>,
    pub rank: u32,
}

impl View for Group {
    type V = GroupContent;

    open spec fn view(&self) -> GroupContent {
        GroupContent {
            id: self.id@,
            label: self.label@,
            description: self.description@,
            reason: self.reason@,
            effort: self.effort,
            role: self.role,
            class_ids: texts(self.class_ids@),
            depends_on: texts(self.depends_on@),
            rank: self.rank,
        }
    }
}

/// What a reading step says.
pub struct StepContent {
    pub group: Seq<char>,
    pub action: ReadAction,
}

impl View for ReadingStep {
    type V = StepContent;

    open spec fn view(&self) -> StepContent {
        StepContent { group: self.group@, action: self.action }
    }
}

pub open spec fn group_views(groups: Seq<Group>) -> Seq<GroupContent> {
    groups.map_values(|g: Group| g@)
}

pub open spec fn step_views(steps: Seq<ReadingStep>) -> Seq<StepContent> {
    steps.map_values(|s: ReadingStep| s@)
}

/// The place of the last of some names that is `x`.
pub open spec fn last_pos(names: Seq<Seq<char>>, x: Seq<char>) -> Option<int>
    decreases names.len(),
{
    if names.len() == 0 {
        None
    } else if names.last() == x {
        Some(names.len() - 1)
    } else {
        last_pos(names.drop_last(), x)
    }
}

/// A name is found where it stands, and only there.
pub proof fn lemma_last_pos(names: Seq<Seq<char>>, x: Seq<char>)
    ensures
        last_pos(names, x) is Some <==> names.contains(x),
        last_pos(names, x) matches Some(i) ==> 0 <= i < names.len() && names[i] == x,
        names.no_duplicates() ==> forall|i: int|
            0 <= i < names.len() && #[trigger] names[i] == x ==> last_pos(names, x) == Some(i),
    decreases names.len(),
{
    if names.len() > 0 {
        let p = names.drop_last();
        lemma_last_pos(p, x);
        if names.last() == x {
            assert(names[names.len() - 1] == x);
        }
        if p.contains(x) {
            let k = choose|k: int| 0 <= k < p.len() && p[k] == x;
            assert(names[k] == x);
        }
        if names.contains(x) && names.last() != x {
            let k = choose|k: int| 0 <= k < names.len() && names[k] == x;
            assert(p[k] == x);
        }
    }
}

/// The ids of hunks.
pub open spec fn hunk_names(hunks: Seq<HunkEntry>) -> Seq<Seq<char>> {
    Seq::new(hunks.len(), |i: int| hunks[i].id@)
}

/// The ids of classes.
pub open spec fn class_names(classes: Seq<ClassEntry>) -> Seq<Seq<char>> {
    Seq::new(classes.len(), |i: int| classes[i].id@)
}

/// The paths of files.
pub open spec fn file_names(files: Seq<FileEntry>) -> Seq<Seq<char>> {
    Seq::new(files.len(), |i: int| files[i].path@)
}

/// The ids of groups.
pub open spec fn group_names(groups: Seq<Group>) -> Seq<Seq<char>> {
    Seq::new(groups.len(), |i: int| groups[i].id@)
}

pub open spec fn place(r: Option<usize>) -> Option<int> {
    match r {
        Some(i) => Some(i as int),
        None => None,
    }
}

/// Find a hunk by id.
pub fn find_hunk(hunks: &Vec<HunkEntry>, id: &str) -> (r: Option<usize>)
    ensures
        place(r) == last_pos(hunk_names(hunks@), id@),
        r matches Some(i) ==> i < hunks@.len() && hunks@[i as int].id@ == id@,
{
    let mut i: usize = hunks.len();
    let ghost names = hunk_names(hunks@);
    assert(names.take(i as int) =~= names);
    while i > 0
        invariant
            i <= hunks@.len(),
            names == hunk_names(hunks@),
            last_pos(names, id@) == last_pos(names.take(i as int), id@),
        decreases i,
    {
        assert(names.take(i as int).drop_last() =~= names.take(i - 1));
        if str_eq(&hunks[i - 1].id, id) {
            return Some(i - 1);
        }
        i = i - 1;
    }
    None
}

/// Find a class by id.
pub fn find_class(classes: &Vec<ClassEntry>, id: &str) -> (r: Option<usize>)
    ensures
        place(r) == last_pos(class_names(classes@), id@),
        r matches Some(i) ==> i < classes@.len() && classes@[i as int].id@ == id@,
{
    let mut i: usize = classes.len();
    let ghost names = class_names(classes@);
    assert(names.take(i as int) =~= names);
    while i > 0
        invariant
            i <= classes@.len(),
            names == class_names(classes@),
            last_pos(names, id@) == last_pos(names.take(i as int), id@),
        decreases i,
    {
        assert(names.take(i as int).drop_last() =~= names.take(i - 1));
        if str_eq(&classes[i - 1].id, id) {
            return Some(i - 1);
        }
        i = i - 1;
    }
    None
}

/// Find a file by path.
pub fn find_file(files: &Vec<FileEntry>, path: &str) -> (r: Option<usize>)
    ensures
        place(r) == last_pos(file_names(files@), path@),
        r matches Some(i) ==> i < files@.len() && files@[i as int].path@ == path@,
{
    let mut i: usize = files.len();
    let ghost names = file_names(files@);
    assert(names.take(i as int) =~= names);
    while i > 0
        invariant
            i <= files@.len(),
            names == file_names(files@),
            last_pos(names, path@) == last_pos(names.take(i as int), path@),
        decreases i,
    {
        assert(names.take(i as int).drop_last() =~= names.take(i - 1));
        if str_eq(&files[i - 1].path, path) {
            return Some(i - 1);
        }
        i = i - 1;
    }
    None
}

/// Find a group by id.
pub fn find_group(groups: &[Group], id: &str) -> (r: Option<usize>)
    ensures
        place(r) == last_pos(group_names(groups@), id@),
        r matches Some(i) ==> i < groups@.len() && groups@[i as int].id@ == id@,
{
    let mut i: usize = groups.len();
    let ghost names = group_names(groups@);
    assert(names.take(i as int) =~= names);
    while i > 0
        invariant
            i <= groups@.len(),
            names == group_names(groups@),
            last_pos(names, id@) == last_pos(names.take(i as int), id@),
        decreases i,
    {
        assert(names.take(i as int).drop_last() =~= names.take(i - 1));
        if str_eq(&groups[i - 1].id, id) {
            return Some(i - 1);
        }
        i = i - 1;
    }
    None
}

/// Why a document was not accepted.
#[derive(Debug, Clone, PartialEq)]
pub enum SchemaError {
    UnsupportedVersion { found: u32 },
    /// The text is no plan document; the message says why.
    Json(String),
}

/// The version gate: only the known version passes.
pub fn check_version(found: u32) -> (r: Result<(), SchemaError>)
    ensures
        r is Ok <==> found == SCHEMA_VERSION,
        r matches Err(e) ==> e == (SchemaError::UnsupportedVersion { found }),
{
    if found != SCHEMA_VERSION {
        return Err(SchemaError::UnsupportedVersion { found });
    }
    Ok(())
}

/// What is found by an id is the last one with it; nothing is found where none has it.
pub proof fn law_an_id_finds_the_last_one_with_it(
    classes: &Vec<ClassEntry>,
    hunks: &Vec<HunkEntry>,
    id: &str,
    c: Option<usize>,
    h: Option<usize>,
)
    requires
        call_ensures(find_class, (classes, id), c),
        call_ensures(find_hunk, (hunks, id), h),
    ensures
        match c {
            Some(i) => i < classes@.len() && classes@[i as int].id@ == id@ && forall|j: int|
                i < j < classes@.len() ==> (#[trigger] classes@[j]).id@ != id@,
            None => forall|j: int|
                0 <= j < classes@.len() ==> (#[trigger] classes@[j]).id@ != id@,
        },
        match h {
            Some(i) => i < hunks@.len() && hunks@[i as int].id@ == id@ && forall|j: int|
                i < j < hunks@.len() ==> (#[trigger] hunks@[j]).id@ != id@,
            None => forall|j: int| 0 <= j < hunks@.len() ==> (#[trigger] hunks@[j]).id@ != id@,
        },
{
    lemma_none_behind(class_names(classes@), id@);
    lemma_none_behind(hunk_names(hunks@), id@);
    lemma_last_pos(class_names(classes@), id@);
    lemma_last_pos(hunk_names(hunks@), id@);
    assert(forall|j: int|
        0 <= j < classes@.len() ==> class_names(classes@)[j] == (#[trigger] classes@[j]).id@);
    assert(forall|j: int|
        0 <= j < hunks@.len() ==> hunk_names(hunks@)[j] == (#[trigger] hunks@[j]).id@);
}

proof fn lemma_none_behind(names: Seq<Seq<char>>, x: Seq<char>)
    ensures
        match last_pos(names, x) {
            Some(p) => forall|d: int| p < d < names.len() ==> #[trigger] names[d] != x,
            None => forall|d: int| 0 <= d < names.len() ==> #[trigger] names[d] != x,
        },
    decreases names.len(),
{
    if names.len() > 0 && names.last() != x {
        let fewer = names.drop_last();
        lemma_none_behind(fewer, x);
        lemma_last_pos(fewer, x);
        assert(forall|d: int| 0 <= d < fewer.len() ==> #[trigger] fewer[d] == names[d]);
        assert(forall|d: int| 0 <= d < fewer.len() ==> #[trigger] names[d] == fewer[d]);
    }
}

} // verus!
