//! The document of a verified, classified diff: what every consumer reads.
//!
//! A document holds no content, only where things are; and none is made of a diff
//! whose audits failed.
use vstd::prelude::*;
use vstd::string::*;
use vstd::utf8::{
    decode_utf8, decode_utf8_encode_utf8, encode_utf8, encode_utf8_valid_utf8, valid_utf8,
};

use crate::artefact::graph::ClassGraph;
use crate::config::{globs_match, set_patterns, Config};
use crate::hash::{hex_text, sha1_digest};
use crate::invariants::InvariantReport;
use crate::model::{self, DiffView, FileChange, Hunk};
use crate::pipeline::is_listed;
use crate::plan::enumerate::marked;
use crate::plan::ids::{class_ok, file_ok, id_ok, law_hunk_id_round_trip, valid};
use crate::schema::{
    Audit, ClassEdge, ClassEntry, Disposition, FileEntry, ForgePosition, GeneratedBy, Generator,
    HunkEntry, PlanDocument, Source, SourceKind, Stats, SubmoduleChange, SCHEMA_VERSION,
};
use crate::seqs::{bytes_eq, texts, views};
use crate::shape::{digest_preimage, hunk_digest, is_partition, Partition};
use crate::text::{copy_texts, decimal, lossy, lossy_text, push_decimal};
use crate::EngineError;

verus! {

/// What a document is of.
#[derive(Debug, Clone)]
pub struct SourceInfo {
    pub kind: SourceKind,
    pub base: String,
    pub head: String,
}

/// The name under which documents are made.
pub const TOOL: &'static str = "differential";

// ---------------------------------------------------------------------------
// Paths

/// The text of a path; a path that is not UTF-8 is refused.
pub fn path_text(path: &[u8]) -> (r: Result<String, EngineError>)
    ensures
        match r {
            Ok(s) => valid_utf8(path@) && s@ == decode_utf8(path@),
            Err(e) => !valid_utf8(path@) && (e matches EngineError::NonUtf8Path { lossy: l } && l@
                == lossy_text(path@)),
        },
{
    let text = lossy(path);
    proof {
        if valid_utf8(path@) {
            decode_utf8_encode_utf8(path@);
        }
        encode_utf8_valid_utf8(text@);
    }
    if bytes_eq(text.as_str().as_bytes(), path) {
        Ok(text)
    } else {
        Err(EngineError::NonUtf8Path { lossy: text })
    }
}

/// Whether every path of a file can be written to a document.
pub open spec fn paths_ok(f: FileChange) -> bool {
    &&& valid_utf8(f.path@)
    &&& f.rename_from matches Some(p) ==> valid_utf8(p@)
    &&& f.rename_to matches Some(p) ==> valid_utf8(p@)
}

/// Whether every path of a view can be written to a document.
pub open spec fn all_paths_ok(view: &DiffView) -> bool {
    forall|f: int| 0 <= f < view.files@.len() ==> paths_ok(#[trigger] view.files@[f])
}

// ---------------------------------------------------------------------------
// Entries

/// A numbered id.
pub open spec fn numbered(letter: char, n: int) -> Seq<char> {
    seq![letter] + decimal(n as nat)
}

fn numbered_id(letter: char, n: usize) -> (r: String)
    ensures
        r@ == numbered(letter, n as int),
{
    let mut out = String::new();
    out.push(letter);
    push_decimal(&mut out, n as u64);
    assert(out@ =~= numbered(letter, n as int));
    out
}

fn numbered_ids(letter: char, ns: &Vec<usize>) -> (r: Vec<String>)
    ensures
        texts(r@) == ids_of(letter, ns@),
{
    let mut out: Vec<String> = Vec::new();
    for i in 0..ns.len()
        invariant
            out@.len() == i,
            forall|k: int| 0 <= k < i ==> (#[trigger] out@[k])@ == numbered(letter, ns@[k] as int),
    {
        out.push(numbered_id(letter, ns[i]));
    }
    assert(texts(out@) =~= ids_of(letter, ns@));
    out
}

/// Numbered ids.
pub open spec fn ids_of(letter: char, ns: Seq<usize>) -> Seq<Seq<char>> {
    ns.map_values(|n: usize| numbered(letter, n as int))
}

pub open spec fn disposition_of(d: model::Disposition) -> Disposition {
    match d {
        model::Disposition::Added => Disposition::A,
        model::Disposition::Deleted => Disposition::D,
        model::Disposition::Modified => Disposition::M,
    }
}

pub open spec fn generated_of(g: Option<model::GeneratedBy>) -> Option<GeneratedBy> {
    match g {
        Some(model::GeneratedBy::Builtin) => Some(GeneratedBy::Builtin),
        Some(model::GeneratedBy::Attr) => Some(GeneratedBy::Attr),
        Some(model::GeneratedBy::Config) => Some(GeneratedBy::Config),
        None => None,
    }
}

/// A decoded optional path.
pub open spec fn decoded(p: Option<Vec<u8>>) -> Option<Seq<char>> {
    match p {
        Some(b) => Some(decode_utf8(b@)),
        None => None,
    }
}

pub open spec fn text_of(o: Option<String>) -> Option<Seq<char>> {
    match o {
        Some(s) => Some(s@),
        None => None,
    }
}

/// Whether an entry is the one of a file.
pub open spec fn is_file_entry(e: FileEntry, f: FileChange) -> bool {
    &&& e.path@ == decode_utf8(f.path@)
    &&& e.disposition == disposition_of(f.disposition)
    &&& text_of(e.mode) == text_of(f.new_mode)
    &&& text_of(e.old_mode) == text_of(f.old_mode)
    &&& text_of(e.old_path) == decoded(f.rename_from)
    &&& text_of(e.new_path) == decoded(f.rename_to)
    &&& e.rename_similarity == f.rename_similarity
    &&& e.binary == f.binary
    &&& match f.submodule {
        None => e.submodule is None,
        Some((old, new)) => e.submodule matches Some(s) && text_of(s.old) == text_of(old)
            && text_of(s.new) == text_of(new),
    }
    &&& e.generated == (f.generated is Some)
    &&& e.generated_by == generated_of(f.generated)
    &&& texts(e.hunk_ids@) == ids_of('h', f.hunks@)
}

/// Where a hunk stands in the forge's diff: a side that it does not touch has no
/// line.
pub open spec fn position_of(h: Hunk) -> ForgePosition {
    ForgePosition {
        new_line: if h.new_count > 0 {
            Some(h.new_start)
        } else {
            None
        },
        old_line: if h.old_count > 0 {
            Some(h.old_start)
        } else {
            None
        },
    }
}

/// Whether an entry is the one of a hunk.
pub open spec fn is_hunk_entry(e: HunkEntry, n: int, view: &DiffView, part: &Partition) -> bool {
    let h = view.hunks@[n];
    &&& e.id@ == numbered('h', n)
    &&& e.file@ == decode_utf8(view.files@[h.file as int].path@)
    &&& e.old_start == h.old_start
    &&& e.old_count == h.old_count
    &&& e.new_start == h.new_start
    &&& e.new_count == h.new_count
    &&& e.class@ == numbered('C', part.class_of@[n] as int)
    &&& e.digest@ == hex_text(sha1_digest(digest_preimage(&h)))
    &&& e.nonl_old == h.nonl_old
    &&& e.nonl_new == h.nonl_new
    &&& e.forge_position == position_of(h)
}

/// Whether an entry is the one of a class. The first member is the one that is read.
pub open spec fn is_class_entry(
    e: ClassEntry,
    c: int,
    part: &Partition,
    graph: &ClassGraph,
) -> bool {
    &&& e.id@ == numbered('C', c)
    &&& texts(e.hunk_ids@) == ids_of('h', part.classes@[c]@)
    &&& e.exemplar@ == numbered('h', part.classes@[c]@[0] as int)
    &&& e.pure_substitution == part.pure@[c]
    &&& texts(e.defines@) == texts(graph.defines@[c]@)
    &&& e.depends_on@.len() == graph.depends_on@[c]@.len()
    &&& forall|i: int|
        0 <= i < e.depends_on@.len() ==> same_edge(
            #[trigger] e.depends_on@[i],
            graph.depends_on@[c]@[i],
        )
}

pub open spec fn same_edge(a: ClassEdge, b: ClassEdge) -> bool {
    a.on@ == b.on@ && texts(a.via@) == texts(b.via@)
}

fn optional_path(p: &Option<Vec<u8>>) -> (r: Result<Option<String>, EngineError>)
    ensures
        match r {
            Ok(s) => text_of(s) == decoded(*p) && (p matches Some(b) ==> valid_utf8(b@)),
            Err(e) => p matches Some(b) && !valid_utf8(b@) && e is NonUtf8Path,
        },
{
    match p {
        None => Ok(None),
        Some(b) => match path_text(b.as_slice()) {
            Ok(s) => Ok(Some(s)),
            Err(e) => Err(e),
        },
    }
}

fn file_entry(f: &FileChange) -> (r: Result<FileEntry, EngineError>)
    ensures
        match r {
            Ok(e) => paths_ok(*f) && is_file_entry(e, *f),
            Err(e) => !paths_ok(*f) && e is NonUtf8Path,
        },
{
    let path = match path_text(f.path.as_slice()) {
        Ok(s) => s,
        Err(e) => {
            return Err(e);
        },
    };
    let old_path = match optional_path(&f.rename_from) {
        Ok(s) => s,
        Err(e) => {
            return Err(e);
        },
    };
    let new_path = match optional_path(&f.rename_to) {
        Ok(s) => s,
        Err(e) => {
            return Err(e);
        },
    };
    let submodule = match &f.submodule {
        None => None,
        Some((old, new)) => Some(SubmoduleChange { old: old.clone(), new: new.clone() }),
    };
    Ok(
        FileEntry {
            path,
            disposition: match f.disposition {
                model::Disposition::Added => Disposition::A,
                model::Disposition::Deleted => Disposition::D,
                model::Disposition::Modified => Disposition::M,
            },
            mode: f.new_mode.clone(),
            old_mode: f.old_mode.clone(),
            old_path,
            new_path,
            rename_similarity: f.rename_similarity,
            binary: f.binary,
            submodule,
            generated: f.generated.is_some(),
            generated_by: match f.generated {
                Some(model::GeneratedBy::Builtin) => Some(GeneratedBy::Builtin),
                Some(model::GeneratedBy::Attr) => Some(GeneratedBy::Attr),
                Some(model::GeneratedBy::Config) => Some(GeneratedBy::Config),
                None => None,
            },
            hunk_ids: numbered_ids('h', &f.hunks),
        },
    )
}

fn hunk_entry(n: usize, view: &DiffView, part: &Partition, file: &str) -> (r: HunkEntry)
    requires
        n < view.hunks@.len(),
        n < part.class_of@.len(),
        file@ == decode_utf8(view.files@[view.hunks@[n as int].file as int].path@),
    ensures
        is_hunk_entry(r, n as int, view, part),
{
    let h = &view.hunks[n];
    HunkEntry {
        id: numbered_id('h', n),
        file: file.to_owned(),
        old_start: h.old_start,
        old_count: h.old_count,
        new_start: h.new_start,
        new_count: h.new_count,
        class: numbered_id('C', part.class_of[n]),
        digest: hunk_digest(h),
        nonl_old: h.nonl_old,
        nonl_new: h.nonl_new,
        forge_position: ForgePosition {
            new_line: if h.new_count > 0 {
                Some(h.new_start)
            } else {
                None
            },
            old_line: if h.old_count > 0 {
                Some(h.old_start)
            } else {
                None
            },
        },
    }
}

fn class_entry(c: usize, part: &Partition, graph: &ClassGraph) -> (r: ClassEntry)
    requires
        c < part.classes@.len(),
        part.classes@[c as int]@.len() > 0,
        part.pure@.len() == part.classes@.len(),
        graph.defines@.len() == part.classes@.len(),
        graph.depends_on@.len() == part.classes@.len(),
    ensures
        is_class_entry(r, c as int, part, graph),
{
    let mut edges: Vec<ClassEdge> = Vec::new();
    let from = &graph.depends_on[c];
    for i in 0..from.len()
        invariant
            edges@.len() == i,
            forall|k: int| 0 <= k < i ==> same_edge(#[trigger] edges@[k], from@[k]),
    {
        edges.push(ClassEdge { on: from[i].on.clone(), via: copy_texts(&from[i].via) });
    }
    let members = &part.classes[c];
    ClassEntry {
        id: numbered_id('C', c),
        hunk_ids: numbered_ids('h', members),
        exemplar: numbered_id('h', members[0]),
        pure_substitution: part.pure[c],
        defines: copy_texts(&graph.defines[c]),
        depends_on: edges,
    }
}

// ---------------------------------------------------------------------------
// The document

/// How many of the first `k` files are binary.
pub open spec fn binaries(files: Seq<FileChange>, k: nat) -> nat
    decreases k,
{
    if k == 0 {
        0
    } else {
        binaries(files, (k - 1) as nat) + (if files[k - 1].binary {
            1nat
        } else {
            0
        })
    }
}

/// How many of the first `k` files are submodules.
pub open spec fn submodules(files: Seq<FileChange>, k: nat) -> nat
    decreases k,
{
    if k == 0 {
        0
    } else {
        submodules(files, (k - 1) as nat) + (if files[k - 1].submodule is Some {
            1nat
        } else {
            0
        })
    }
}

/// Whether a document is the one of a view.
pub open spec fn is_document(
    d: PlanDocument,
    view: &DiffView,
    part: &Partition,
    graph: &ClassGraph,
    source: &SourceInfo,
    report: &InvariantReport,
    version: Seq<char>,
) -> bool {
    &&& d.schema_version == SCHEMA_VERSION
    &&& d.generator.tool@ == TOOL@
    &&& d.generator.version@ == version
    &&& texts(d.generator.stages@) == seq!["enumerate"@, "classify"@]
    &&& d.source.kind == source.kind
    &&& d.source.base@ == source.base@
    &&& d.source.head@ == source.head@
    &&& d.source.remote is None
    &&& d.stats.files == view.files@.len() as u32
    &&& d.stats.hunks == view.hunks@.len() as u32
    &&& d.stats.classes == part.classes@.len() as u32
    &&& d.stats.binary_files == binaries(view.files@, view.files@.len()) as u32
    &&& d.stats.submodules == submodules(view.files@, view.files@.len()) as u32
    &&& d.files@.len() == view.files@.len()
    &&& forall|f: int|
        0 <= f < d.files@.len() ==> is_file_entry(#[trigger] d.files@[f], view.files@[f])
    &&& d.hunks@.len() == view.hunks@.len()
    &&& forall|n: int|
        0 <= n < d.hunks@.len() ==> is_hunk_entry(#[trigger] d.hunks@[n], n, view, part)
    &&& d.classes@.len() == part.classes@.len()
    &&& forall|c: int|
        0 <= c < d.classes@.len() ==> is_class_entry(#[trigger] d.classes@[c], c, part, graph)
    &&& d.groups is None
    &&& d.reading_plan is None
    &&& d.audit.applier_exact@ == report.exact()
    &&& d.audit.tree_assertion@ == "pass"@
    &&& d.audit.hunks_carried == view.hunks@.len() as u32
    &&& d.audit.recount == (match report.tree {
        Some(t) => t.recount as u32,
        None => 0,
    })
    &&& d.audit.coverage is None
    &&& d.audit.classes_missing is None
    &&& d.audit.classes_duplicated is None
    &&& d.audit.classes_hallucinated is None
    &&& d.audit.read_hunks is None
    &&& d.audit.skipped_hunks is None
}

/// Whether a partition and a graph are of a view.
pub open spec fn belongs(view: &DiffView, part: &Partition, graph: &ClassGraph) -> bool {
    &&& view.wf()
    &&& part.class_of@.len() == view.hunks@.len()
    &&& part.pure@.len() == part.classes@.len()
    &&& is_partition(part.classes@, part.class_of@)
    &&& graph.defines@.len() == part.classes@.len()
    &&& graph.depends_on@.len() == part.classes@.len()
}

/// Make the document of a view. `None` iff an audit failed: no document is made on a
/// violation. A path that is not UTF-8 cannot be written.
pub fn assemble(
    view: &DiffView,
    part: &Partition,
    graph: &ClassGraph,
    source: &SourceInfo,
    report: &InvariantReport,
    version: &str,
) -> (r: Result<Option<PlanDocument>, EngineError>)
    requires
        belongs(view, part, graph),
    ensures
        ({
            let passed = report.faithful() && (report.tree matches Some(t) && t.tree_ok
                && t.recount_ok);
            match r {
                Ok(None) => !passed,
                Ok(Some(d)) => passed && all_paths_ok(view) && is_document(
                    d,
                    view,
                    part,
                    graph,
                    source,
                    report,
                    version@,
                ),
                Err(e) => passed && !all_paths_ok(view) && e is NonUtf8Path,
            }
        }),
{
    if !report.all_ok() {
        return Ok(None);
    }
    let mut files: Vec<FileEntry> = Vec::new();
    let mut binary_files: usize = 0;
    let mut links: usize = 0;
    for f in 0..view.files.len()
        invariant
            files@.len() == f,
            binary_files <= f,
            links <= f,
            binary_files == binaries(view.files@, f as nat),
            links == submodules(view.files@, f as nat),
            forall|k: int| 0 <= k < f ==> paths_ok(#[trigger] view.files@[k]),
            forall|k: int| 0 <= k < f ==> is_file_entry(#[trigger] files@[k], view.files@[k]),
            report.faithful() && (report.tree matches Some(t) && t.tree_ok && t.recount_ok),
    {
        match file_entry(&view.files[f]) {
            Ok(e) => {
                files.push(e);
            },
            Err(e) => {
                assert(!paths_ok(view.files@[f as int]));
                return Err(e);
            },
        }
        if view.files[f].binary {
            binary_files = binary_files + 1;
        }
        if view.files[f].submodule.is_some() {
            links = links + 1;
        }
    }
    let mut hunks: Vec<HunkEntry> = Vec::new();
    for n in 0..view.hunks.len()
        invariant
            belongs(view, part, graph),
            files@.len() == view.files@.len(),
            forall|k: int|
                0 <= k < files@.len() ==> is_file_entry(#[trigger] files@[k], view.files@[k]),
            hunks@.len() == n,
            forall|k: int| 0 <= k < n ==> is_hunk_entry(#[trigger] hunks@[k], k, view, part),
    {
        let f = view.hunks[n].file;
        assert(view.hunks@[n as int].file < view.files@.len());
        assert(is_file_entry(files@[f as int], view.files@[f as int]));
        let e = hunk_entry(n, view, part, &files[f].path);
        hunks.push(e);
    }
    let mut classes: Vec<ClassEntry> = Vec::new();
    for c in 0..part.classes.len()
        invariant
            belongs(view, part, graph),
            classes@.len() == c,
            forall|k: int| 0 <= k < c ==> is_class_entry(#[trigger] classes@[k], k, part, graph),
    {
        assert(part.classes@[c as int]@.len() > 0);
        classes.push(class_entry(c, part, graph));
    }
    let mut stages: Vec<String> = Vec::new();
    stages.push("enumerate".to_owned());
    stages.push("classify".to_owned());
    assert(texts(stages@) =~= seq!["enumerate"@, "classify"@]);
    let recount: u32 = match &report.tree {
        Some(t) => #[verifier::truncate] (t.recount as u32),
        None => 0,
    };
    Ok(
        Some(
            PlanDocument {
                schema_version: SCHEMA_VERSION,
                generator: Generator {
                    tool: TOOL.to_owned(),
                    version: version.to_owned(),
                    stages,
                },
                source: Source {
                    kind: source.kind,
                    base: source.base.clone(),
                    head: source.head.clone(),
                    remote: None,
                },
                stats: Stats {
                    files: #[verifier::truncate] (view.files.len() as u32),
                    hunks: #[verifier::truncate] (view.hunks.len() as u32),
                    classes: #[verifier::truncate] (part.classes.len() as u32),
                    binary_files: #[verifier::truncate] (binary_files as u32),
                    submodules: #[verifier::truncate] (links as u32),
                },
                files,
                hunks,
                classes,
                groups: None,
                reading_plan: None,
                audit: Audit {
                    applier_exact: report.applier_exact(),
                    tree_assertion: "pass".to_owned(),
                    hunks_carried: #[verifier::truncate] (view.hunks.len() as u32),
                    recount,
                    coverage: None,
                    classes_missing: None,
                    classes_duplicated: None,
                    classes_hallucinated: None,
                    read_hunks: None,
                    skipped_hunks: None,
                },
            },
        ),
    )
}

/// What a change is, apart from how it is described.
pub open spec fn same_change(a: HunkEntry, b: HunkEntry) -> bool {
    &&& a.id@ == b.id@
    &&& a.file@ == b.file@
    &&& a.old_start == b.old_start && a.old_count == b.old_count
    &&& a.new_start == b.new_start && a.new_count == b.new_count
    &&& a.digest@ == b.digest@
    &&& a.nonl_old == b.nonl_old && a.nonl_new == b.nonl_new
    &&& a.forge_position == b.forge_position
}

/// Nothing is ever left out of a document, not by configuration, attributes or
/// languages: whatever generated marks and whatever partition one view is given, the
/// documents name the same files with the same hunks, and the same changes.
pub proof fn law_marks_and_languages_exclude_nothing(
    was: Seq<FileChange>,
    first: (PlanDocument, DiffView, Partition, ClassGraph, InvariantReport),
    other: (PlanDocument, DiffView, Partition, ClassGraph, InvariantReport),
    marks: (Seq<Option<model::GeneratedBy>>, Seq<Option<model::GeneratedBy>>),
    source: &SourceInfo,
    version: Seq<char>,
)
    requires
        first.1.wf() && other.1.wf(),
        first.1.hunks == other.1.hunks,
        first.1.files@.len() == was.len() && other.1.files@.len() == was.len(),
        forall|i: int|
            0 <= i < was.len() ==> marked(#[trigger] first.1.files@[i], was[i], marks.0[i]),
        forall|i: int|
            0 <= i < was.len() ==> marked(#[trigger] other.1.files@[i], was[i], marks.1[i]),
        is_document(first.0, &first.1, &first.2, &first.3, source, &first.4, version),
        is_document(other.0, &other.1, &other.2, &other.3, source, &other.4, version),
    ensures
        first.0.files@.len() == other.0.files@.len() == was.len(),
        forall|f: int|
            0 <= f < was.len() ==> (#[trigger] first.0.files@[f]).path@ == other.0.files@[f].path@
                && texts(first.0.files@[f].hunk_ids@) == texts(other.0.files@[f].hunk_ids@),
        first.0.hunks@.len() == other.0.hunks@.len(),
        forall|n: int|
            0 <= n < first.0.hunks@.len() ==> same_change(
                #[trigger] first.0.hunks@[n],
                other.0.hunks@[n],
            ),
{
    assert forall|f: int| 0 <= f < was.len() implies (#[trigger] first.0.files@[f]).path@
        == other.0.files@[f].path@ && texts(first.0.files@[f].hunk_ids@) == texts(
        other.0.files@[f].hunk_ids@,
    ) by {
        assert(is_file_entry(first.0.files@[f], first.1.files@[f]));
        assert(is_file_entry(other.0.files@[f], other.1.files@[f]));
        assert(marked(first.1.files@[f], was[f], marks.0[f]));
        assert(marked(other.1.files@[f], was[f], marks.1[f]));
    }
    assert forall|n: int| 0 <= n < first.0.hunks@.len() implies same_change(
        #[trigger] first.0.hunks@[n],
        other.0.hunks@[n],
    ) by {
        let f = first.1.hunks@[n].file as int;
        assert(is_hunk_entry(first.0.hunks@[n], n, &first.1, &first.2));
        assert(is_hunk_entry(other.0.hunks@[n], n, &other.1, &other.2));
        assert(marked(first.1.files@[f], was[f], marks.0[f]));
        assert(marked(other.1.files@[f], was[f], marks.1[f]));
    }
}

/// A document that was made never contradicts itself: every id in it names a hunk of
/// it.
pub proof fn law_a_document_is_consistent(
    d: PlanDocument,
    view: &DiffView,
    part: &Partition,
    graph: &ClassGraph,
    source: &SourceInfo,
    report: &InvariantReport,
    version: Seq<char>,
)
    requires
        belongs(view, part, graph),
        is_document(d, view, part, graph, source, report, version),
        forall|f: int, k: int|
            0 <= f < view.files@.len() && 0 <= k < view.files@[f].hunks@.len() ==> (
            #[trigger] view.files@[f].hunks@[k]) < view.hunks@.len(),
    ensures
        valid(&d),
{
    assert forall|c: int| 0 <= c < d.classes@.len() implies class_ok(
        &d,
        #[trigger] d.classes@[c],
    ) by {
        let e = d.classes@[c];
        let members = part.classes@[c]@;
        assert(is_class_entry(e, c, part, graph));
        assert(part.classes@[c]@.len() > 0);
        assert(members[0] < part.class_of@.len());
        law_hunk_id_round_trip(members[0] as nat);
        assert(texts(e.hunk_ids@).len() == ids_of('h', members).len());
        assert forall|k: int| 0 <= k < e.hunk_ids@.len() implies id_ok(
            &d,
            (#[trigger] e.hunk_ids@[k])@,
        ) by {
            assert(texts(e.hunk_ids@)[k] == ids_of('h', members)[k]);
            assert(part.classes@[c]@[k] < part.class_of@.len());
            law_hunk_id_round_trip(members[k] as nat);
        }
    }
    assert forall|f: int| 0 <= f < d.files@.len() implies file_ok(&d, #[trigger] d.files@[f]) by {
        let e = d.files@[f];
        let hunks = view.files@[f].hunks@;
        assert(is_file_entry(e, view.files@[f]));
        assert(texts(e.hunk_ids@).len() == ids_of('h', hunks).len());
        assert forall|k: int| 0 <= k < e.hunk_ids@.len() implies id_ok(
            &d,
            (#[trigger] e.hunk_ids@[k])@,
        ) by {
            assert(texts(e.hunk_ids@)[k] == ids_of('h', hunks)[k]);
            assert(view.files@[f].hunks@[k] < view.hunks@.len());
            law_hunk_id_round_trip(hunks[k] as nat);
        }
    }
}

// ---------------------------------------------------------------------------
// Generated files

/// Whether a path is `name`, in the root or in a directory.
pub open spec fn is_named(path: Seq<u8>, name: Seq<u8>) -> bool {
    path == name || (path.len() > name.len() && path.skip(path.len() - name.len()) == name
        && path[path.len() - name.len() - 1] == 47)
}

/// Whether a path is a lock file that tools write.
pub open spec fn is_lock_file(path: Seq<u8>) -> bool {
    ||| is_named(path, encode_utf8("Cargo.lock"@))
    ||| is_named(path, encode_utf8("package-lock.json"@))
    ||| is_named(path, encode_utf8("yarn.lock"@))
    ||| is_named(path, encode_utf8("pnpm-lock.yaml"@))
    ||| is_named(path, encode_utf8("Gemfile.lock"@))
    ||| is_named(path, encode_utf8("poetry.lock"@))
    ||| is_named(path, encode_utf8("composer.lock"@))
    ||| is_named(path, encode_utf8("go.sum"@))
}

fn named(path: &[u8], name: &str) -> (r: bool)
    ensures
        r == is_named(path@, encode_utf8(name@)),
{
    let bytes = name.as_bytes();
    if bytes_eq(path, bytes) {
        return true;
    }
    if path.len() <= bytes.len() {
        return false;
    }
    let from = path.len() - bytes.len();
    let tail = vstd::slice::slice_subrange(path, from, path.len());
    assert(tail@ =~= path@.skip(from as int));
    bytes_eq(tail, bytes) && path[from - 1] == 47
}

/// Whether a path is on the built-in list of generated files.
pub fn builtin_generated(path: &[u8]) -> (r: bool)
    ensures
        r == is_lock_file(path@),
{
    named(path, "Cargo.lock") || named(path, "package-lock.json") || named(path, "yarn.lock")
        || named(path, "pnpm-lock.yaml") || named(path, "Gemfile.lock") || named(
        path,
        "poetry.lock",
    ) || named(path, "composer.lock") || named(path, "go.sum")
}

/// Who declares each file of a view generated. A mark is a hint for the noise tier:
/// it never affects what exists.
pub fn generated_marks(view: &DiffView, config: &Config, attr_marked: &Vec<Vec<u8>>) -> (r: Vec<
    Option<model::GeneratedBy>,
>)
    ensures
        r@.len() == view.files@.len(),
        forall|f: int|
            0 <= f < r@.len() ==> #[trigger] r@[f] == config.declared(
                lossy_text(view.files@[f].path@),
                is_lock_file(view.files@[f].path@),
                views(attr_marked@).contains(view.files@[f].path@),
            ),
{
    let mut out: Vec<Option<model::GeneratedBy>> = Vec::new();
    for f in 0..view.files.len()
        invariant
            out@.len() == f,
            forall|k: int|
                0 <= k < f ==> #[trigger] out@[k] == config.declared(
                    lossy_text(view.files@[k].path@),
                    is_lock_file(view.files@[k].path@),
                    views(attr_marked@).contains(view.files@[k].path@),
                ),
    {
        let path = view.files[f].path.as_slice();
        let attr = is_listed(attr_marked, path);
        out.push(config.generated_by(&lossy(path), builtin_generated(path), attr));
    }
    out
}

// ---------------------------------------------------------------------------
// What a document says

/// Whether an optional text is an optional path.
pub open spec fn is_path(text: Option<String>, path: Option<Vec<u8>>) -> bool {
    match path {
        Some(p) => text matches Some(t) && t@ == decode_utf8(p@),
        None => text is None,
    }
}

/// Whether two optional texts are the same.
pub open spec fn is_same(a: Option<String>, b: Option<String>) -> bool {
    match b {
        Some(t) => a matches Some(s) && s@ == t@,
        None => a is None,
    }
}

/// The entry of a file says where it stands and stood, what happened to it and who
/// declares it generated, and names its hunks in order.
pub proof fn law_a_file_entry_is_of_its_file(
    view: &DiffView,
    part: &Partition,
    graph: &ClassGraph,
    source: &SourceInfo,
    report: &InvariantReport,
    version: &str,
    d: PlanDocument,
    f: int,
)
    requires
        call_ensures(assemble, (view, part, graph, source, report, version), Ok(Some(d))),
        0 <= f < view.files@.len(),
    ensures
        d.files@.len() == view.files@.len(),
        d.files@[f].path@ == decode_utf8(view.files@[f].path@),
        d.files@[f].disposition == Disposition::A <==> view.files@[f].disposition
            == model::Disposition::Added,
        d.files@[f].disposition == Disposition::D <==> view.files@[f].disposition
            == model::Disposition::Deleted,
        is_same(d.files@[f].mode, view.files@[f].new_mode),
        is_same(d.files@[f].old_mode, view.files@[f].old_mode),
        is_path(d.files@[f].old_path, view.files@[f].rename_from),
        is_path(d.files@[f].new_path, view.files@[f].rename_to),
        d.files@[f].rename_similarity == view.files@[f].rename_similarity,
        d.files@[f].binary == view.files@[f].binary,
        d.files@[f].submodule is Some <==> view.files@[f].submodule is Some,
        view.files@[f].submodule matches Some(pair) ==> is_same(
            d.files@[f].submodule->0.old,
            pair.0,
        ) && is_same(d.files@[f].submodule->0.new, pair.1),
        d.files@[f].generated <==> view.files@[f].generated is Some,
        d.files@[f].generated_by is Some <==> view.files@[f].generated is Some,
        d.files@[f].generated_by == Some(GeneratedBy::Attr) <==> view.files@[f].generated == Some(
            model::GeneratedBy::Attr,
        ),
        d.files@[f].generated_by == Some(GeneratedBy::Config) <==> view.files@[f].generated == Some(
            model::GeneratedBy::Config,
        ),
        d.files@[f].hunk_ids@.len() == view.files@[f].hunks@.len(),
        forall|k: int|
            0 <= k < view.files@[f].hunks@.len() ==> (#[trigger] d.files@[f].hunk_ids@[k])@ == seq![
                'h',
            ] + decimal(view.files@[f].hunks@[k] as nat),
{
    assert(is_file_entry(d.files@[f], view.files@[f]));
    let ids = texts(d.files@[f].hunk_ids@);
    let want = ids_of('h', view.files@[f].hunks@);
    assert(ids.len() == want.len());
    assert forall|k: int| 0 <= k < view.files@[f].hunks@.len() implies (
    #[trigger] d.files@[f].hunk_ids@[k])@ == seq!['h'] + decimal(
        view.files@[f].hunks@[k] as nat,
    ) by {
        assert(ids[k] == want[k]);
    }
}

/// The entry of a hunk says where it stands, on the sides that it touches, and in which
/// class it is.
pub proof fn law_a_hunk_entry_is_of_its_hunk(
    view: &DiffView,
    part: &Partition,
    graph: &ClassGraph,
    source: &SourceInfo,
    report: &InvariantReport,
    version: &str,
    d: PlanDocument,
    n: int,
)
    requires
        call_ensures(assemble, (view, part, graph, source, report, version), Ok(Some(d))),
        0 <= n < view.hunks@.len(),
    ensures
        d.hunks@.len() == view.hunks@.len(),
        d.hunks@[n].id@ == seq!['h'] + decimal(n as nat),
        d.hunks@[n].file@ == decode_utf8(view.files@[view.hunks@[n].file as int].path@),
        d.hunks@[n].old_start == view.hunks@[n].old_start,
        d.hunks@[n].old_count == view.hunks@[n].old_count,
        d.hunks@[n].new_start == view.hunks@[n].new_start,
        d.hunks@[n].new_count == view.hunks@[n].new_count,
        d.hunks@[n].nonl_old == view.hunks@[n].nonl_old,
        d.hunks@[n].nonl_new == view.hunks@[n].nonl_new,
        d.hunks@[n].class@ == seq!['C'] + decimal(part.class_of@[n] as nat),
        d.hunks@[n].forge_position.new_line is Some <==> view.hunks@[n].new_count > 0,
        d.hunks@[n].forge_position.old_line is Some <==> view.hunks@[n].old_count > 0,
        d.hunks@[n].forge_position.new_line matches Some(l) ==> l == view.hunks@[n].new_start,
        d.hunks@[n].forge_position.old_line matches Some(l) ==> l == view.hunks@[n].old_start,
{
    assert(is_hunk_entry(d.hunks@[n], n, view, part));
}

/// The entry of a class names exactly the hunks whose entries name the class. The first
/// of them is its exemplar.
pub proof fn law_a_class_entry_is_of_its_hunks(
    view: &DiffView,
    part: &Partition,
    graph: &ClassGraph,
    source: &SourceInfo,
    report: &InvariantReport,
    version: &str,
    d: PlanDocument,
    c: int,
    n: int,
)
    requires
        belongs(view, part, graph),
        call_ensures(assemble, (view, part, graph, source, report, version), Ok(Some(d))),
        0 <= c < part.classes@.len(),
        0 <= n < view.hunks@.len(),
    ensures
        d.classes@.len() == part.classes@.len(),
        d.classes@[c].id@ == seq!['C'] + decimal(c as nat),
        d.classes@[c].hunk_ids@.len() > 0,
        d.classes@[c].exemplar@ == d.classes@[c].hunk_ids@[0]@,
        texts(d.classes@[c].hunk_ids@).contains(d.hunks@[n].id@) <==> part.class_of@[n] == c,
        d.classes@[c].pure_substitution == part.pure@[c],
{
    let e = d.classes@[c];
    let members = part.classes@[c]@;
    let ids = texts(e.hunk_ids@);
    let want = ids_of('h', members);
    assert(is_class_entry(e, c, part, graph));
    assert(is_hunk_entry(d.hunks@[n], n, view, part));
    assert(ids.len() == want.len());
    assert(members.len() > 0);
    assert(ids[0] == want[0]);
    assert(view.hunks.len() == view.hunks@.len());
    assert(n as usize == n);
    if ids.contains(d.hunks@[n].id@) {
        let k = choose|k: int| 0 <= k < ids.len() && ids[k] == d.hunks@[n].id@;
        assert(want[k] == numbered('h', members[k] as int));
        assert(members[k] < part.class_of@.len());
        law_hunk_id_round_trip(n as nat);
        law_hunk_id_round_trip(members[k] as nat);
    }
    if part.class_of@[n] == c {
        assert(part.classes@[part.class_of@[n] as int]@.contains(n as usize));
        let k = choose|k: int| 0 <= k < members.len() && members[k] == n as usize;
        assert(want[k] == d.hunks@[n].id@);
        assert(ids[k] == want[k]);
    }
}

/// The counts of a document are those of the view: of its binary files and of its
/// submodules those that are such.
pub proof fn law_the_counts_are_those_of_the_view(
    view: &DiffView,
    part: &Partition,
    graph: &ClassGraph,
    source: &SourceInfo,
    report: &InvariantReport,
    version: &str,
    d: PlanDocument,
)
    requires
        call_ensures(assemble, (view, part, graph, source, report, version), Ok(Some(d))),
    ensures
        d.stats.files == view.files@.len() as u32,
        d.stats.hunks == view.hunks@.len() as u32,
        d.stats.classes == part.classes@.len() as u32,
        d.stats.binary_files == view.files@.filter(|f: FileChange| f.binary).len() as u32,
        d.stats.submodules == view.files@.filter(|f: FileChange| f.submodule is Some).len() as u32,
        d.audit.hunks_carried == view.hunks@.len() as u32,
{
    let files = view.files@;
    lemma_counts(files, files.len());
    assert(files.take(files.len() as int) =~= files);
}

/// Counting one by one is counting those that are such.
proof fn lemma_counts(files: Seq<FileChange>, k: nat)
    requires
        k <= files.len(),
    ensures
        binaries(files, k) == files.take(k as int).filter(|f: FileChange| f.binary).len(),
        submodules(files, k) == files.take(k as int).filter(
            |f: FileChange| f.submodule is Some,
        ).len(),
    decreases k,
{
    reveal(Seq::filter);
    let taken = files.take(k as int);
    if k > 0 {
        lemma_counts(files, (k - 1) as nat);
        assert(taken.drop_last() =~= files.take(k - 1));
        assert(taken.last() == files[k - 1]);
    }
}

/// Whether a path is a name, or ends with the name behind a slash.
pub open spec fn names_file(path: Seq<u8>, name: Seq<char>) -> bool {
    path == encode_utf8(name) || exists|dir: Seq<u8>|
        path == #[trigger] (dir + seq![47u8]) + encode_utf8(name)
}

proof fn lemma_is_named(path: Seq<u8>, name: Seq<char>)
    ensures
        is_named(path, encode_utf8(name)) <==> names_file(path, name),
{
    let n = encode_utf8(name);
    if is_named(path, n) && path != n {
        let dir = path.take(path.len() - n.len() - 1);
        assert(path =~= (dir + seq![47u8]) + n) by {
            assert(path.skip(path.len() - n.len()) == n);
            assert forall|i: int| path.len() - n.len() <= i < path.len() implies path[i] == n[i - (
            path.len() - n.len())] by {
                assert(path.skip(path.len() - n.len())[i - (path.len() - n.len())] == path[i]);
            }
        }
    }
    if exists|dir: Seq<u8>| path == #[trigger] (dir + seq![47u8]) + n {
        let dir = choose|dir: Seq<u8>| path == #[trigger] (dir + seq![47u8]) + n;
        assert(path.skip(path.len() - n.len()) =~= n);
        assert(path[path.len() - n.len() - 1] == 47);
    }
}

/// A lock file that a package manager writes is generated, in whatever directory it is,
/// and no other file is by its name.
pub proof fn law_lock_files_are_generated(path: &[u8], r: bool)
    requires
        call_ensures(builtin_generated, (path,), r),
    ensures
        r <==> {
            ||| names_file(path@, "Cargo.lock"@)
            ||| names_file(path@, "package-lock.json"@)
            ||| names_file(path@, "yarn.lock"@)
            ||| names_file(path@, "pnpm-lock.yaml"@)
            ||| names_file(path@, "Gemfile.lock"@)
            ||| names_file(path@, "poetry.lock"@)
            ||| names_file(path@, "composer.lock"@)
            ||| names_file(path@, "go.sum"@)
        },
{
    lemma_is_named(path@, "Cargo.lock"@);
    lemma_is_named(path@, "package-lock.json"@);
    lemma_is_named(path@, "yarn.lock"@);
    lemma_is_named(path@, "pnpm-lock.yaml"@);
    lemma_is_named(path@, "Gemfile.lock"@);
    lemma_is_named(path@, "poetry.lock"@);
    lemma_is_named(path@, "composer.lock"@);
    lemma_is_named(path@, "go.sum"@);
}

/// Every file gets the mark that the configuration gives its path, by whether it is a lock
/// file and whether an attribute marks it.
pub proof fn law_a_file_is_marked_as_its_path_says(
    view: &DiffView,
    config: &Config,
    attr_marked: &Vec<Vec<u8>>,
    r: Vec<Option<model::GeneratedBy>>,
    f: int,
    path: &[u8],
    lock: bool,
)
    requires
        call_ensures(generated_marks, (view, config, attr_marked), r),
        0 <= f < view.files@.len(),
        path@ == view.files@[f].path@,
        call_ensures(builtin_generated, (path,), lock),
    ensures
        r@.len() == view.files@.len(),
        ({
            let text = lossy_text(path@);
            let attr = exists|k: int|
                0 <= k < attr_marked@.len() && (#[trigger] attr_marked@[k])@ == path@;
            let kept = globs_match(set_patterns(config.not_generated), text);
            &&& r@[f] == Some(model::GeneratedBy::Builtin) <==> !kept && lock
            &&& r@[f] == Some(model::GeneratedBy::Attr) <==> !kept && !lock && attr
            &&& r@[f] == Some(model::GeneratedBy::Config) <==> !kept && !lock && !attr
                && globs_match(set_patterns(config.generated), text)
        }),
{
    let all = views(attr_marked@);
    if all.contains(path@) {
        let k = choose|k: int| 0 <= k < all.len() && all[k] == path@;
        assert(attr_marked@[k]@ == path@);
    }
    if exists|k: int| 0 <= k < attr_marked@.len() && (#[trigger] attr_marked@[k])@ == path@ {
        let k = choose|k: int|
            0 <= k < attr_marked@.len() && (#[trigger] attr_marked@[k])@ == path@;
        assert(all[k] == path@);
    }
    assert(r@[f] == config.declared(
        lossy_text(path@),
        is_lock_file(path@),
        all.contains(path@),
    ));
}

} // verus!
