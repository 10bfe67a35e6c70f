//! What a review is of, and what the pipeline hands to a renderer.
use vstd::prelude::*;
use vstd::utf8::encode_utf8;

use crate::artefact::graph::{are_parsed, build, is_graph, parse_files, ClassGraph};
use crate::artefact::symbols::{is_reaching, reaching, FileSymbols};
use crate::config::Config;
use crate::document::{
    all_paths_ok, assemble, belongs, generated_marks, is_document, is_lock_file,
    law_a_document_is_consistent, SourceInfo,
};
use crate::gitio::AttrValue;
use crate::grouping::fetch::{GroupingOptions, Progress};
use crate::grouping::parse::RawGroups;
use crate::grouping::stage::{group_document, is_staged, law_a_document_can_be_grouped, ready};
use crate::invariants::{accounted, check_all, is_checked, owns_its_list, InvariantReport};
use crate::lang;
use crate::lang::LanguageRegistry;
use crate::llm::LlmBackend;
use crate::model::DiffView;
use crate::ordering;
use crate::ordering::is_ordered;
use crate::plan::enumerate::{
    attr_marks_generated, build_view, classify, is_enumeration, lemma_same_lists, marked,
    marks_generated, Enumeration,
};
use crate::plan::ids::valid;
use crate::plan::source::{parse_range, range_of_args, RangeSpec, RangeView, ReviewSource};
use crate::ports::{
    ArtefactStore, AttributeSource, DiffSource, GroupingCache, ObjectReader, ObjectWriter, RangeResolver, RecountSource,
    SymbolReader, TreeBuilder, TreeResolver, WorkingCopy,
};
use crate::review_identity::WORKTREE_SPEC;
use crate::schema::{PlanDocument, SourceKind};
use crate::seqs::{bytes_eq, copy_bytes, join, lemma_push_contains, views};
use crate::shape::{
    class_key, hunk_form, is_grouping, is_partition, is_pure, largest_first, Partition,
};
use crate::text::lossy_text;
use crate::worktree::{index_tree, is_index_tree, is_worktree_tree, worktree_tree};
use crate::EngineError;

verus! {

/// What a run of the pipeline gives.
#[derive(Debug)]
pub struct PipelineOutput {
    pub base: String,
    pub head: String,
    pub report: InvariantReport,
    /// `None` iff an invariant failed: no document is emitted on a violation.
    pub document: Option<PlanDocument>,
    /// The canonical diff view (hunk content). The document never carries content.
    pub view: DiffView,
}

/// The head spec of a picked review without uncommitted work.
pub const HEAD_SPEC: &'static str = "HEAD";

/// Whether a source is a plain committed range.
pub open spec fn is_range(s: ReviewSource, base: Seq<char>, head: Seq<char>, spec: Seq<char>) -> bool {
    &&& s.base@ == base
    &&& s.head@ == head
    &&& s.head_spec@ == spec
    &&& s.kind == SourceKind::Range
    &&& s.identity_base is None
}

/// Resolve a revision-range spec into a review source.
///
/// The spec is parsed once, so the endpoints and the review's identity cannot
/// disagree about which side is the head. Only `a...b` asks git anything: its base
/// is the merge-base.
pub fn resolve_range<G: RangeResolver>(git: &G, spec: &[&str]) -> (r: Result<
    ReviewSource,
    EngineError,
>)
    ensures
        match range_of_args(spec@) {
            Err(m) => r matches Err(EngineError::Range(msg)) && msg@ == m,
            Ok(RangeView::Direct { base, head }) => r matches Ok(s) && is_range(s, base, head, head),
            Ok(RangeView::MergeBase { a, b }) => exists|
                x: &str,
                y: &str,
                answer: Result<String, EngineError>,
            |
                {
                    &&& x@ == a
                    &&& y@ == b
                    &&& #[trigger] call_ensures(G::merge_base, (git, x, y), answer)
                    &&& match answer {
                        Ok(base) => r matches Ok(s) && is_range(s, base@, b, b),
                        Err(e) => r == Err::<ReviewSource, EngineError>(e),
                    }
                },
        },
{
    let parsed = match parse_range(spec) {
        Ok(p) => p,
        Err(e) => {
            return Err(e);
        },
    };
    let head_spec = parsed.head_spec().to_owned();
    match &parsed {
        RangeSpec::Direct { base, head } => Ok(
            ReviewSource::range(base.clone(), head.clone(), head_spec),
        ),
        RangeSpec::MergeBase { a, b } => {
            let x: &str = a.as_str();
            let y: &str = b.as_str();
            let answer = git.merge_base(x, y);
            assert(call_ensures(G::merge_base, (git, x, y), answer));
            match answer {
                Ok(base) => Ok(ReviewSource::range(base, b.clone(), head_spec)),
                Err(e) => Err(e),
            }
        },
    }
}

/// Resolve a picked base commit, with or without uncommitted work.
///
/// With it, the head is a snapshot of the worktree, and the review is filed under
/// the base plus a stable literal, so it survives that snapshot churning under it
/// on every edit. Without it, the head is `HEAD`, and git is not asked.
pub fn resolve_picked<G: TreeBuilder + WorkingCopy>(
    git: &G,
    base: String,
    include_worktree: bool,
) -> (r: Result<ReviewSource, EngineError>)
    ensures
        if !include_worktree {
            r matches Ok(s) && is_range(s, base@, HEAD_SPEC@, HEAD_SPEC@)
        } else {
            exists|answer: Result<String, EngineError>|
                {
                    &&& #[trigger] is_worktree_tree(git, answer)
                    &&& match answer {
                        Err(e) => r == Err::<ReviewSource, EngineError>(e),
                        Ok(head) => r matches Ok(s) && {
                            &&& s.base@ == base@
                            &&& s.head == head
                            &&& s.kind == SourceKind::Worktree
                            &&& s.head_spec@ == WORKTREE_SPEC@
                            &&& s.identity_base matches Some(b) && b@ == base@
                        },
                    }
                }
        },
{
    if !include_worktree {
        return Ok(ReviewSource::range(base, HEAD_SPEC.to_owned(), HEAD_SPEC.to_owned()));
    }
    let answer = worktree_tree(git);
    assert(is_worktree_tree(git, answer));
    match answer {
        Err(e) => Err(e),
        Ok(head) => Ok(
            ReviewSource {
                identity_base: Some(base.clone()),
                base,
                head,
                kind: SourceKind::Worktree,
                head_spec: WORKTREE_SPEC.to_owned(),
            },
        ),
    }
}

/// The head spec of a review of the staged state.
pub const STAGED_SPEC: &'static str = "STAGED";

/// Resolve the staged state against a base commit.
///
/// The head is a tree of the index, and the review is filed under the base plus a
/// stable literal, so it survives that tree changing under it.
pub fn resolve_staged<G: TreeBuilder>(git: &G, base: String) -> (r: Result<
    ReviewSource,
    EngineError,
>)
    ensures
        exists|answer: Result<String, EngineError>|
            {
                &&& #[trigger] is_index_tree(git, answer)
                &&& match answer {
                    Err(e) => r == Err::<ReviewSource, EngineError>(e),
                    Ok(head) => r matches Ok(s) && {
                        &&& s.base@ == base@
                        &&& s.head == head
                        &&& s.kind == SourceKind::Staged
                        &&& s.head_spec@ == STAGED_SPEC@
                        &&& s.identity_base matches Some(b) && b@ == base@
                    },
                }
            },
{
    let answer = index_tree(git);
    assert(is_index_tree(git, answer));
    match answer {
        Err(e) => Err(e),
        Ok(head) => Ok(
            ReviewSource {
                identity_base: Some(base.clone()),
                base,
                head,
                kind: SourceKind::Staged,
                head_spec: STAGED_SPEC.to_owned(),
            },
        ),
    }
}

/// Whether some answer marks a path as generated.
pub open spec fn marked_by(answers: Seq<AttrValue>, path: Seq<u8>) -> bool {
    exists|i: int|
        0 <= i < answers.len() && (#[trigger] answers[i]).path@ == path && marks_generated(
            answers[i].value@,
        )
}

/// The paths that some answers mark as generated.
pub fn marked_paths(answers: &Vec<AttrValue>) -> (r: Vec<Vec<u8>>)
    ensures
        views(r@).no_duplicates(),
        forall|path: Seq<u8>| #[trigger] views(r@).contains(path) <==> marked_by(answers@, path),
{
    let mut out: Vec<Vec<u8>> = Vec::new();
    for i in 0..answers.len()
        invariant
            views(out@).no_duplicates(),
            forall|path: Seq<u8>| #[trigger]
                views(out@).contains(path) <==> marked_by(answers@.take(i as int), path),
    {
        let ghost had = views(out@);
        let ghost part = answers@.take(i as int);
        let ghost now = answers@.take(i + 1);
        let a = &answers[i];
        let yes = attr_marks_generated(a.value.as_slice());
        let known = is_listed(&out, a.path.as_slice());
        if yes && !known {
            out.push(copy_bytes(a.path.as_slice()));
            assert(views(out@) =~= had.push(a.path@));
        }
        proof {
            assert forall|path: Seq<u8>| #[trigger]
                views(out@).contains(path) <==> marked_by(now, path) by {
                lemma_push_contains(had, a.path@, path);
                if marked_by(part, path) {
                    let k = choose|k: int|
                        0 <= k < part.len() && (#[trigger] part[k]).path@ == path
                            && marks_generated(part[k].value@);
                    assert(now[k] == part[k]);
                }
                if marked_by(now, path) && !(yes && path == a.path@) {
                    let k = choose|k: int|
                        0 <= k < now.len() && (#[trigger] now[k]).path@ == path
                            && marks_generated(now[k].value@);
                    assert(k < i);
                    assert(part[k] == now[k]);
                }
                if yes {
                    assert(now[i as int].path@ == a.path@);
                }
            }
        }
    }
    assert(answers@.take(answers@.len() as int) =~= answers@);
    out
}

/// Whether paths are those of the files of a view.
pub open spec fn are_paths(paths: Seq<&[u8]>, view: &DiffView) -> bool {
    &&& paths.len() == view.files@.len()
    &&& forall|i: int| 0 <= i < paths.len() ==> (#[trigger] paths[i])@ == view.files@[i].path@
}

/// Whether a repository may answer so for an attribute on the files of a view.
pub open spec fn attr_answer<G: AttributeSource>(
    git: &G,
    attr: Seq<char>,
    view: &DiffView,
    answer: Result<Vec<AttrValue>, EngineError>,
) -> bool {
    exists|a: &str, p: &[&[u8]]|
        a@ == attr && are_paths(p@, view) && #[trigger] call_ensures(
            G::check_attr,
            (git, a, p),
            answer,
        )
}

/// Whether answers are what a repository gave for the first `k` attributes.
pub open spec fn all_answered<G: AttributeSource>(
    git: &G,
    attrs: Seq<String>,
    view: &DiffView,
    answers: Seq<Vec<AttrValue>>,
    k: int,
) -> bool {
    forall|i: int| 0 <= i < k ==> attr_answer(git, attrs[i]@, view, Ok(#[trigger] answers[i]))
}

/// Whether one of the first `k` answers marks a path as generated.
pub open spec fn marked_by_any(answers: Seq<Vec<AttrValue>>, k: int, path: Seq<u8>) -> bool {
    exists|i: int| 0 <= i < k && marked_by((#[trigger] answers[i])@, path)
}

/// Whether paths are those that the answers to some attributes mark.
pub open spec fn is_attr_marks<G: AttributeSource>(
    git: &G,
    attrs: Seq<String>,
    view: &DiffView,
    r: Result<Vec<Vec<u8>>, EngineError>,
) -> bool {
    match r {
        Ok(list) => exists|answers: Seq<Vec<AttrValue>>|
            {
                &&& answers.len() == attrs.len()
                &&& #[trigger] all_answered(git, attrs, view, answers, answers.len() as int)
                &&& forall|path: Seq<u8>| #[trigger]
                    views(list@).contains(path) <==> marked_by_any(
                        answers,
                        answers.len() as int,
                        path,
                    )
            },
        Err(e) => exists|i: int|
            0 <= i < attrs.len() && attr_answer(git, (#[trigger] attrs[i])@, view, Err(e)),
    }
}

/// Paths marked generated by any of the configured attributes. Which attributes to
/// ask about is configuration; what the answers mean is decided here.
pub fn attr_marked_paths<G: AttributeSource>(git: &G, config: &Config, view: &DiffView) -> (r:
    Result<Vec<Vec<u8>>, EngineError>)
    ensures
        is_attr_marks(git, config.attributes@, view, r),
{
    let mut paths: Vec<&[u8]> = Vec::new();
    for i in 0..view.files.len()
        invariant
            paths@.len() == i,
            forall|k: int| 0 <= k < i ==> (#[trigger] paths@[k])@ == view.files@[k].path@,
    {
        paths.push(view.files[i].path.as_slice());
    }
    let mut marked: Vec<Vec<u8>> = Vec::new();
    let ghost mut answers: Seq<Vec<AttrValue>> = Seq::empty();
    for a in 0..config.attributes.len()
        invariant
            are_paths(paths@, view),
            answers.len() == a,
            all_answered(git, config.attributes@, view, answers, a as int),
            forall|path: Seq<u8>| #[trigger]
                views(marked@).contains(path) <==> marked_by_any(answers, a as int, path),
    {
        let attr: &str = config.attributes[a].as_str();
        let asked: &[&[u8]] = paths.as_slice();
        let answer = git.check_attr(attr, asked);
        assert(call_ensures(G::check_attr, (git, attr, asked), answer));
        assert(attr_answer(git, config.attributes@[a as int]@, view, answer));
        let list = match answer {
            Ok(list) => list,
            Err(e) => {
                return Err(e);
            },
        };
        let ghost had = views(marked@);
        let ghost before = answers;
        let more = marked_paths(&list);
        append_paths(&mut marked, &more);
        proof {
            answers = answers.push(list);
            assert forall|i: int| 0 <= i < a + 1 implies attr_answer(
                git,
                config.attributes@[i]@,
                view,
                Ok(#[trigger] answers[i]),
            ) by {
                if i < a {
                    assert(answers[i] == before[i]);
                }
            }
            assert forall|path: Seq<u8>| #[trigger]
                views(marked@).contains(path) <==> marked_by_any(answers, a + 1, path) by {
                assert(views(marked@).contains(path) <==> had.contains(path) || views(
                    more@,
                ).contains(path));
                if marked_by_any(before, a as int, path) {
                    let i = choose|i: int| 0 <= i < a && marked_by((#[trigger] before[i])@, path);
                    assert(answers[i] == before[i]);
                }
                if views(more@).contains(path) {
                    assert(marked_by(answers[a as int]@, path));
                }
                if marked_by_any(answers, a + 1, path) {
                    let i = choose|i: int|
                        0 <= i < a + 1 && marked_by((#[trigger] answers[i])@, path);
                    if i < a {
                        assert(before[i] == answers[i]);
                    }
                }
            }
        }
    }
    Ok(marked)
}

/// Add some paths to others.
fn append_paths(all: &mut Vec<Vec<u8>>, more: &Vec<Vec<u8>>)
    ensures
        forall|path: Seq<u8>| #[trigger]
            views(final(all)@).contains(path) <==> views(old(all)@).contains(path) || views(
                more@,
            ).contains(path),
{
    let ghost was = views(all@);
    let ghost new = views(more@);
    for i in 0..more.len()
        invariant
            new == views(more@),
            forall|path: Seq<u8>| #[trigger]
                views(all@).contains(path) <==> was.contains(path) || new.take(
                    i as int,
                ).contains(path),
    {
        let ghost had = views(all@);
        let ghost part = new.take(i as int);
        all.push(copy_bytes(more[i].as_slice()));
        proof {
            assert(views(all@) =~= had.push(new[i as int]));
            assert(new.take(i + 1) =~= part.push(new[i as int]));
            assert forall|path: Seq<u8>| #[trigger]
                views(all@).contains(path) <==> was.contains(path) || new.take(i + 1).contains(
                    path,
                ) by {
                lemma_push_contains(had, new[i as int], path);
                lemma_push_contains(part, new[i as int], path);
            }
        }
    }
    assert(new.take(new.len() as int) =~= new);
}

/// Whether a list holds a path.
pub fn is_listed(list: &Vec<Vec<u8>>, path: &[u8]) -> (r: bool)
    ensures
        r == views(list@).contains(path@),
{
    let ghost all = views(list@);
    for i in 0..list.len()
        invariant
            all == views(list@),
            forall|k: int| 0 <= k < i ==> #[trigger] all[k] != path@,
    {
        if bytes_eq(list[i].as_slice(), path) {
            assert(all[i as int] == path@);
            return true;
        }
        assert(all[i as int] != path@);
    }
    false
}

// ---------------------------------------------------------------------------
// The core: enumerate, classify, verify, emit

/// What the core is run with, besides a repository and two endpoints.
pub struct CoreOptions<'a, S: SymbolReader> {
    pub kind: SourceKind,
    pub config: &'a Config,
    pub langs: &'a LanguageRegistry,
    pub symbols: &'a S,
    /// The version that the document names.
    pub version: &'a str,
}

/// Whether a report passes everything.
pub open spec fn passes(report: InvariantReport) -> bool {
    report.faithful() && (report.tree matches Some(t) && t.tree_ok && t.recount_ok)
}

/// Whether a document is the one of a view.
pub open spec fn is_document_of<S: SymbolReader>(
    o: CoreOptions<'_, S>,
    base: Seq<char>,
    head: Seq<char>,
    view: DiffView,
    part: Partition,
    graph: ClassGraph,
    report: InvariantReport,
    d: PlanDocument,
) -> bool {
    exists|source: &SourceInfo|
        {
            &&& source.kind == o.kind
            &&& source.base@ == base
            &&& source.head@ == head
            &&& #[trigger] is_document(d, &view, &part, &graph, source, &report, o.version@)
        }
}

/// Whether an answer is what a verified view comes to: a document iff every check
/// passed. Only a path that cannot be written stands in its way.
pub open spec fn is_emitted<S: SymbolReader>(
    o: CoreOptions<'_, S>,
    base: Seq<char>,
    head: Seq<char>,
    view: DiffView,
    part: Partition,
    graph: ClassGraph,
    report: InvariantReport,
    r: Result<PipelineOutput, EngineError>,
) -> bool {
    match r {
        Ok(out) => {
            &&& out.base@ == base
            &&& out.head@ == head
            &&& out.report == report
            &&& out.view == view
            &&& match out.document {
                Some(d) => passes(report) && all_paths_ok(&view) && is_document_of(
                    o,
                    base,
                    head,
                    view,
                    part,
                    graph,
                    report,
                    d,
                ),
                None => !passes(report),
            }
        },
        Err(e) => passes(report) && !all_paths_ok(&view) && e is NonUtf8Path,
    }
}

/// Whether an output's view accounts for every hunk, and its document, if there is
/// one, does not contradict itself and can be grouped.
pub open spec fn well_made(out: PipelineOutput) -> bool {
    &&& out.view.wf()
    &&& accounted(&out.view)
    &&& out.document matches Some(d) ==> valid(&d) && ready(&d) && d.hunks@.len()
        == out.view.hunks@.len()
}

/// The files of an accounted view list hunks of the view.
proof fn lemma_in_range(view: &DiffView)
    requires
        accounted(view),
    ensures
        forall|f: int, i: int|
            0 <= f < view.files@.len() && 0 <= i < view.files@[f].hunks@.len() ==> (
            #[trigger] view.files@[f].hunks@[i]) < view.hunks@.len(),
{
    assert forall|f: int, i: int|
        0 <= f < view.files@.len() && 0 <= i < view.files@[f].hunks@.len() implies (
    #[trigger] view.files@[f].hunks@[i]) < view.hunks@.len() by {
        assert(owns_its_list(view, f));
    }
}

fn emit<S: SymbolReader>(
    o: &CoreOptions<'_, S>,
    base: String,
    head: String,
    view: DiffView,
    part: &Partition,
    graph: &ClassGraph,
    report: InvariantReport,
) -> (r: Result<PipelineOutput, EngineError>)
    requires
        belongs(&view, part, graph),
        accounted(&view),
    ensures
        is_emitted(*o, base@, head@, view, *part, *graph, report, r),
        r matches Ok(out) ==> well_made(out),
{
    let source = SourceInfo { kind: o.kind, base: base.clone(), head: head.clone() };
    match assemble(&view, part, graph, &source, &report, o.version) {
        Ok(document) => {
            proof {
                if document is Some {
                    let d = document->0;
                    assert(is_document(d, &view, part, graph, &source, &report, o.version@));
                    law_a_document_can_be_grouped(
                        &d,
                        &view,
                        part,
                        graph,
                        &source,
                        &report,
                        o.version@,
                    );
                    lemma_in_range(&view);
                    law_a_document_is_consistent(
                        d,
                        &view,
                        part,
                        graph,
                        &source,
                        &report,
                        o.version@,
                    );
                }
            }
            Ok(PipelineOutput { base, head, report, document, view })
        },
        Err(e) => Err(e),
    }
}

/// Whether an answer is what a classified view with its graph comes to.
pub open spec fn is_verified<
    G: ObjectReader + ObjectWriter + TreeResolver + TreeBuilder + RecountSource,
    S: SymbolReader,
>(
    git: &G,
    o: CoreOptions<'_, S>,
    base: Seq<char>,
    head: Seq<char>,
    view: DiffView,
    part: Partition,
    graph: ClassGraph,
    r: Result<PipelineOutput, EngineError>,
) -> bool {
    exists|checked: Result<InvariantReport, EngineError>|
        {
            &&& #[trigger] is_checked(git, base, head, &view, checked)
            &&& match checked {
                Err(e) => r == Err::<PipelineOutput, EngineError>(e),
                Ok(report) => is_emitted(o, base, head, view, part, graph, report, r),
            }
        }
}

/// Whether an answer is what a classified view comes to.
pub open spec fn is_graphed<
    G: ObjectReader + ObjectWriter + TreeResolver + TreeBuilder + RecountSource,
    S: SymbolReader,
>(
    git: &G,
    o: CoreOptions<'_, S>,
    base: Seq<char>,
    head: Seq<char>,
    view: DiffView,
    part: Partition,
    r: Result<PipelineOutput, EngineError>,
) -> bool {
    exists|parsed: Result<Vec<Option<FileSymbols>>, EngineError>|
        {
            &&& #[trigger] are_parsed(git, o.symbols, head, &view, parsed)
            &&& match parsed {
                Err(e) => r == Err::<PipelineOutput, EngineError>(e),
                Ok(symbols) => exists|graph: ClassGraph|
                    {
                        &&& #[trigger] is_graph(&view, &part, symbols@, graph)
                        &&& is_verified(git, o, base, head, view, part, graph, r)
                    },
            }
        }
}

fn verify<
    G: ObjectReader + ObjectWriter + TreeResolver + TreeBuilder + RecountSource,
    S: SymbolReader,
>(
    git: &G,
    o: &CoreOptions<'_, S>,
    base: String,
    head: String,
    view: DiffView,
    part: &Partition,
) -> (r: Result<PipelineOutput, EngineError>)
    requires
        view.wf(),
        accounted(&view),
        part.class_of@.len() == view.hunks@.len(),
        part.pure@.len() == part.classes@.len(),
        is_partition(part.classes@, part.class_of@),
    ensures
        is_graphed(git, *o, base@, head@, view, *part, r),
        r matches Ok(out) ==> well_made(out),
{
    proof {
        lemma_in_range(&view);
    }
    let parsed = parse_files(git, head.as_str(), &view, o.symbols);
    assert(are_parsed(git, o.symbols, head@, &view, parsed));
    let symbols = match parsed {
        Ok(symbols) => symbols,
        Err(e) => {
            return Err(e);
        },
    };
    let graph = build(&view, part, &symbols);
    assert(is_graph(&view, part, symbols@, graph));
    let ghost (b, h) = (base@, head@);
    let checked = check_all(git, base.as_str(), head.as_str(), &view);
    assert(is_checked(git, b, h, &view, checked));
    let ghost v = view;
    let r = match checked {
        Ok(report) => emit(o, base, head, view, part, &graph, report),
        Err(e) => Err(e),
    };
    assert(is_verified(git, *o, b, h, v, *part, graph, r));
    r
}

/// Whether a view and its partition are what configuration and languages make of an
/// enumeration: they say how hunks are described, never which ones exist.
pub open spec fn is_classified<S: SymbolReader>(
    o: CoreOptions<'_, S>,
    built: DiffView,
    attr_marked: Seq<Seq<u8>>,
    view: DiffView,
    part: Partition,
) -> bool {
    &&& view.hunks == built.hunks
    &&& view.files@.len() == built.files@.len()
    &&& forall|i: int|
        0 <= i < built.files@.len() ==> marked(
            #[trigger] view.files@[i],
            built.files@[i],
            o.config.declared(
                lossy_text(built.files@[i].path@),
                is_lock_file(built.files@[i].path@),
                attr_marked.contains(built.files@[i].path@),
            ),
        )
    &&& part.class_of@.len() == view.hunks@.len()
    &&& part.pure@.len() == part.classes@.len()
    &&& is_partition(part.classes@, part.class_of@)
    &&& is_grouping(part.class_of@, |i: int| class_key(&view, o.langs, i))
    &&& largest_first(part.classes@)
    &&& forall|c: int|
        0 <= c < part.classes@.len() ==> #[trigger] part.pure@[c] == is_pure(
            &view.hunks@[part.classes@[c]@[0] as int],
            hunk_form(&view, o.langs, part.classes@[c]@[0] as int),
        )
}

/// Whether an answer is what an enumeration comes to.
pub open spec fn is_described<
    G: AttributeSource + ObjectReader + ObjectWriter + TreeResolver + TreeBuilder + RecountSource,
    S: SymbolReader,
>(
    git: &G,
    o: CoreOptions<'_, S>,
    base: Seq<char>,
    head: Seq<char>,
    built: DiffView,
    r: Result<PipelineOutput, EngineError>,
) -> bool {
    exists|marks: Result<Vec<Vec<u8>>, EngineError>|
        {
            &&& #[trigger] is_attr_marks(git, o.config.attributes@, &built, marks)
            &&& match marks {
                Err(e) => r == Err::<PipelineOutput, EngineError>(e),
                Ok(list) => exists|view: DiffView, part: Partition|
                    {
                        &&& #[trigger] is_classified(o, built, views(list@), view, part)
                        &&& is_graphed(git, o, base, head, view, part, r)
                    },
            }
        }
}

fn describe<
    G: AttributeSource + ObjectReader + ObjectWriter + TreeResolver + TreeBuilder + RecountSource,
    S: SymbolReader,
    F: Fn(Progress),
>(
    git: &G,
    o: &CoreOptions<'_, S>,
    base: String,
    head: String,
    built: DiffView,
    progress: &F,
) -> (r: Result<PipelineOutput, EngineError>)
    requires
        built.wf(),
        accounted(&built),
        forall|p: Progress| #[trigger] call_requires(*progress, (p,)),
    ensures
        is_described(git, *o, base@, head@, built, r),
        r matches Ok(out) ==> well_made(out),
{
    let marks = attr_marked_paths(git, o.config, &built);
    assert(is_attr_marks(git, o.config.attributes@, &built, marks));
    let list = match marks {
        Ok(list) => list,
        Err(e) => {
            return Err(e);
        },
    };
    progress(Progress::Classifying);
    let generated = generated_marks(&built, o.config, &list);
    let mut view = built;
    let part = classify(&mut view, &generated, o.langs);
    proof {
        assert forall|i: int| 0 <= i < built.files@.len() implies marked(
            #[trigger] view.files@[i],
            built.files@[i],
            o.config.declared(
                lossy_text(built.files@[i].path@),
                is_lock_file(built.files@[i].path@),
                views(list@).contains(built.files@[i].path@),
            ),
        ) by {
            assert(marked(view.files@[i], built.files@[i], generated@[i]));
        }
        assert(is_classified(*o, built, views(list@), view, part));
        lemma_same_lists(&built, &view);
    }
    verify(git, o, base, head, view, &part)
}

/// Whether an answer is what three listings of a range come to.
pub open spec fn is_enumerated<
    G: AttributeSource + ObjectReader + ObjectWriter + TreeResolver + TreeBuilder + RecountSource,
    S: SymbolReader,
>(
    git: &G,
    o: CoreOptions<'_, S>,
    base: Seq<char>,
    head: Seq<char>,
    raw: Seq<u8>,
    patch: Seq<u8>,
    renames: Seq<u8>,
    r: Result<PipelineOutput, EngineError>,
) -> bool {
    exists|e: &Enumeration<'_>, built: Result<DiffView, EngineError>|
        {
            &&& e.raw_records@ == raw
            &&& e.canonical_patch@ == patch
            &&& e.rename_records@ == renames
            &&& #[trigger] is_enumeration(e, built)
            &&& match built {
                Err(e) => r == Err::<PipelineOutput, EngineError>(e),
                Ok(view) => is_described(git, o, base, head, view, r),
            }
        }
}

/// Whether an answer is what git's listings of a range come to.
pub open spec fn is_listed_run<
    G: DiffSource + AttributeSource + ObjectReader + ObjectWriter + TreeResolver + TreeBuilder
        + RecountSource,
    S: SymbolReader,
>(
    git: &G,
    o: CoreOptions<'_, S>,
    base: Seq<char>,
    head: Seq<char>,
    r: Result<PipelineOutput, EngineError>,
) -> bool {
    exists|b: &str, h: &str, raw: Result<Vec<u8>, EngineError>|
        {
            &&& b@ == base
            &&& h@ == head
            &&& #[trigger] call_ensures(G::raw_records, (git, b, h), raw)
            &&& match raw {
                Err(e) => r == Err::<PipelineOutput, EngineError>(e),
                Ok(raw) => is_listed_from_patch(git, o, b, h, raw@, r),
            }
        }
}

/// Whether an answer is what git's listings come to, the raw records being known.
pub open spec fn is_listed_from_patch<
    G: DiffSource + AttributeSource + ObjectReader + ObjectWriter + TreeResolver + TreeBuilder
        + RecountSource,
    S: SymbolReader,
>(
    git: &G,
    o: CoreOptions<'_, S>,
    b: &str,
    h: &str,
    raw: Seq<u8>,
    r: Result<PipelineOutput, EngineError>,
) -> bool {
    exists|patch: Result<Vec<u8>, EngineError>|
        {
            &&& #[trigger] call_ensures(G::canonical_patch, (git, b, h), patch)
            &&& match patch {
                Err(e) => r == Err::<PipelineOutput, EngineError>(e),
                Ok(patch) => is_listed_from_renames(git, o, b, h, raw, patch@, r),
            }
        }
}

/// Whether an answer is what git's listings come to, all but the renames being known.
pub open spec fn is_listed_from_renames<
    G: DiffSource + AttributeSource + ObjectReader + ObjectWriter + TreeResolver + TreeBuilder
        + RecountSource,
    S: SymbolReader,
>(
    git: &G,
    o: CoreOptions<'_, S>,
    b: &str,
    h: &str,
    raw: Seq<u8>,
    patch: Seq<u8>,
    r: Result<PipelineOutput, EngineError>,
) -> bool {
    exists|renames: Result<Vec<u8>, EngineError>|
        {
            &&& #[trigger] call_ensures(G::rename_records, (git, b, h), renames)
            &&& match renames {
                Err(e) => r == Err::<PipelineOutput, EngineError>(e),
                Ok(renames) => is_enumerated(git, o, b@, h@, raw, patch, renames@, r),
            }
        }
}

fn enumerate<
    G: DiffSource + AttributeSource + ObjectReader + ObjectWriter + TreeResolver + TreeBuilder
        + RecountSource,
    S: SymbolReader,
    F: Fn(Progress),
>(
    git: &G,
    o: &CoreOptions<'_, S>,
    base: String,
    head: String,
    progress: &F,
) -> (r: Result<PipelineOutput, EngineError>)
    requires
        forall|p: Progress| #[trigger] call_requires(*progress, (p,)),
    ensures
        is_listed_run(git, *o, base@, head@, r),
        r matches Ok(out) ==> well_made(out),
{
    let b: &str = base.as_str();
    let h: &str = head.as_str();
    let raw_answer = git.raw_records(b, h);
    assert(call_ensures(G::raw_records, (git, b, h), raw_answer));
    let raw = match raw_answer {
        Ok(raw) => raw,
        Err(e) => {
            return Err(e);
        },
    };
    let patch_answer = git.canonical_patch(b, h);
    assert(call_ensures(G::canonical_patch, (git, b, h), patch_answer));
    let patch = match patch_answer {
        Ok(patch) => patch,
        Err(e) => {
            assert(is_listed_from_patch(git, *o, b, h, raw@, Err(e)));
            return Err(e);
        },
    };
    let renames_answer = git.rename_records(b, h);
    assert(call_ensures(G::rename_records, (git, b, h), renames_answer));
    let renames = match renames_answer {
        Ok(renames) => renames,
        Err(e) => {
            assert(is_listed_from_renames(git, *o, b, h, raw@, patch@, Err(e)));
            assert(is_listed_from_patch(git, *o, b, h, raw@, Err(e)));
            return Err(e);
        },
    };
    let e = Enumeration {
        raw_records: raw.as_slice(),
        canonical_patch: patch.as_slice(),
        rename_records: renames.as_slice(),
    };
    let built = build_view(&e);
    assert(is_enumeration(&e, built));
    let r = match built {
        Ok(view) => describe(git, o, base.clone(), head.clone(), view, progress),
        Err(e) => Err(e),
    };
    assert(is_enumerated(git, *o, b@, h@, raw@, patch@, renames@, r));
    assert(is_listed_from_renames(git, *o, b, h, raw@, patch@, r));
    assert(is_listed_from_patch(git, *o, b, h, raw@, r));
    r
}

/// Whether an answer is what a range comes to, its base being resolved.
pub open spec fn is_run_on<
    G: RangeResolver + DiffSource + AttributeSource + ObjectReader + ObjectWriter + TreeResolver
        + TreeBuilder + RecountSource,
    S: SymbolReader,
>(
    git: &G,
    o: CoreOptions<'_, S>,
    base: Seq<char>,
    head_rev: Seq<char>,
    r: Result<PipelineOutput, EngineError>,
) -> bool {
    exists|rev: &str, head: Result<String, EngineError>|
        {
            &&& rev@ == head_rev
            &&& #[trigger] call_ensures(G::resolve_endpoint, (git, rev), head)
            &&& match head {
                Err(e) => r == Err::<PipelineOutput, EngineError>(e),
                Ok(h) => is_listed_run(git, o, base, h@, r),
            }
        }
}

/// Whether an answer is what a range comes to.
pub open spec fn is_run<
    G: RangeResolver + DiffSource + AttributeSource + ObjectReader + ObjectWriter + TreeResolver
        + TreeBuilder + RecountSource,
    S: SymbolReader,
>(
    git: &G,
    o: CoreOptions<'_, S>,
    base_rev: Seq<char>,
    head_rev: Seq<char>,
    r: Result<PipelineOutput, EngineError>,
) -> bool {
    exists|rev: &str, base: Result<String, EngineError>|
        {
            &&& rev@ == base_rev
            &&& #[trigger] call_ensures(G::resolve_endpoint, (git, rev), base)
            &&& match base {
                Err(e) => r == Err::<PipelineOutput, EngineError>(e),
                Ok(b) => is_run_on(git, o, b@, head_rev, r),
            }
        }
}

/// The core on a range: enumerate it, describe it, verify the enumeration, and emit a
/// document iff everything holds. The endpoints are commits normally, and trees for a
/// review of uncommitted work.
pub fn run_core_with_progress<
    G: RangeResolver + DiffSource + AttributeSource + ObjectReader + ObjectWriter + TreeResolver
        + TreeBuilder + RecountSource,
    S: SymbolReader,
    F: Fn(Progress),
>(
    git: &G,
    base_rev: &str,
    head_rev: &str,
    o: &CoreOptions<'_, S>,
    progress: &F,
) -> (r: Result<PipelineOutput, EngineError>)
    requires
        forall|p: Progress| #[trigger] call_requires(*progress, (p,)),
    ensures
        is_run(git, *o, base_rev@, head_rev@, r),
        r matches Ok(out) ==> well_made(out),
{
    progress(Progress::Enumerating);
    let base_answer = git.resolve_endpoint(base_rev);
    assert(call_ensures(G::resolve_endpoint, (git, base_rev), base_answer));
    let base = match base_answer {
        Ok(b) => b,
        Err(e) => {
            return Err(e);
        },
    };
    let ghost b = base@;
    let head_answer = git.resolve_endpoint(head_rev);
    assert(call_ensures(G::resolve_endpoint, (git, head_rev), head_answer));
    let r = match head_answer {
        Ok(head) => enumerate(git, o, base, head, progress),
        Err(e) => Err(e),
    };
    assert(is_run_on(git, *o, b, head_rev@, r));
    r
}

/// The core on a range, with nobody watching.
pub fn run_pipeline<
    G: RangeResolver + DiffSource + AttributeSource + ObjectReader + ObjectWriter + TreeResolver
        + TreeBuilder + RecountSource,
    S: SymbolReader,
>(git: &G, base_rev: &str, head_rev: &str, o: &CoreOptions<'_, S>) -> (r: Result<
    PipelineOutput,
    EngineError,
>)
    ensures
        is_run(git, *o, base_rev@, head_rev@, r),
        r matches Ok(out) ==> well_made(out),
{
    let unheard = |p: Progress| -> () {  };
    run_core_with_progress(git, base_rev, head_rev, o, &unheard)
}

/// A document is emitted iff every check passed: no document on a violation.
pub proof fn law_a_document_means_that_every_check_passed<
    G: RangeResolver + DiffSource + AttributeSource + ObjectReader + ObjectWriter + TreeResolver
        + TreeBuilder + RecountSource,
    S: SymbolReader,
>(
    git: &G,
    o: CoreOptions<'_, S>,
    base_rev: Seq<char>,
    head_rev: Seq<char>,
    out: PipelineOutput,
)
    requires
        is_run(git, o, base_rev, head_rev, Ok(out)),
    ensures
        out.document is Some <==> passes(out.report),
{
}

// ---------------------------------------------------------------------------
// The grouped pipeline

/// What the grouping stage is run with.
pub struct StageOptions<'a, B: LlmBackend, C: GroupingCache, A: ArtefactStore> {
    pub grouping: GroupingOptions<'a, B, C>,
    pub artefacts: &'a A,
    /// The prompt's template.
    pub template: &'a str,
}

/// Whether an output is another with its document grouped and then ordered.
pub open spec fn is_arranged(
    out: PipelineOutput,
    grouped: PlanDocument,
    symbols: Seq<lang::FileSymbols>,
    r: Result<PipelineOutput, EngineError>,
) -> bool {
    r matches Ok(done) && {
        &&& done.base == out.base
        &&& done.head == out.head
        &&& done.report == out.report
        &&& done.view == out.view
        &&& done.document matches Some(d) && is_ordered(grouped, out.view, symbols, d)
    }
}

/// Whether symbols are those that ordering goes by.
pub open spec fn all_reaching(
    plain: Seq<lang::FileSymbols>,
    parsed: Seq<Option<FileSymbols>>,
) -> bool {
    &&& plain.len() == parsed.len()
    &&& forall|f: int| 0 <= f < plain.len() ==> is_reaching(#[trigger] plain[f], parsed[f])
}

/// Whether a result is what a grouped document comes to.
pub open spec fn is_ordered_run<G: ObjectReader, S: SymbolReader>(
    git: &G,
    o: CoreOptions<'_, S>,
    out: PipelineOutput,
    grouped: PlanDocument,
    r: Result<PipelineOutput, EngineError>,
) -> bool {
    exists|parsed: Result<Vec<Option<FileSymbols>>, EngineError>|
        {
            &&& #[trigger] are_parsed(git, o.symbols, out.head@, &out.view, parsed)
            &&& match parsed {
                Err(e) => r == Err::<PipelineOutput, EngineError>(e),
                Ok(all) => exists|plain: Seq<lang::FileSymbols>| #[trigger]
                    all_reaching(plain, all@) && is_arranged(out, grouped, plain, r),
            }
        }
}

/// Whether a result is what the document of a core run comes to.
pub open spec fn is_grouped_document<
    G: ObjectReader,
    S: SymbolReader,
    B: LlmBackend,
    C: GroupingCache,
    A: ArtefactStore,
    P: Fn(&str) -> Result<RawGroups, EngineError>,
>(
    git: &G,
    o: CoreOptions<'_, S>,
    stage: StageOptions<'_, B, C, A>,
    parse: P,
    out: PipelineOutput,
    doc: PlanDocument,
    r: Result<PipelineOutput, EngineError>,
) -> bool {
    exists|grouped: Result<PlanDocument, EngineError>|
        {
            &&& #[trigger] is_staged(
                doc,
                stage.template@,
                stage.artefacts,
                stage.grouping,
                join(o.langs.names(), '+'),
                parse,
                grouped,
            )
            &&& match grouped {
                Err(e) => r == Err::<PipelineOutput, EngineError>(e),
                Ok(g) => is_ordered_run(git, o, out, g, r),
            }
        }
}

/// Whether a result is what a range comes to, grouped: without a document there is
/// nothing to group.
pub open spec fn is_grouped_run<
    G: RangeResolver + DiffSource + AttributeSource + ObjectReader + ObjectWriter + TreeResolver
        + TreeBuilder + RecountSource,
    S: SymbolReader,
    B: LlmBackend,
    C: GroupingCache,
    A: ArtefactStore,
    P: Fn(&str) -> Result<RawGroups, EngineError>,
>(
    git: &G,
    o: CoreOptions<'_, S>,
    stage: StageOptions<'_, B, C, A>,
    parse: P,
    base_rev: Seq<char>,
    head_rev: Seq<char>,
    r: Result<PipelineOutput, EngineError>,
) -> bool {
    exists|core: Result<PipelineOutput, EngineError>|
        {
            &&& #[trigger] is_run(git, o, base_rev, head_rev, core)
            &&& match core {
                Err(e) => r == Err::<PipelineOutput, EngineError>(e),
                Ok(out) => match out.document {
                    None => r == Ok::<PipelineOutput, EngineError>(out),
                    Some(doc) => is_grouped_document(git, o, stage, parse, out, doc, r),
                },
            }
        }
}

/// The whole pipeline on a range: the core, the grouping stage, and then the order,
/// which is deterministic and needs no model.
pub fn run_grouped_pipeline<
    G: RangeResolver + DiffSource + AttributeSource + ObjectReader + ObjectWriter + TreeResolver
        + TreeBuilder + RecountSource,
    S: SymbolReader,
    B: LlmBackend,
    C: GroupingCache,
    A: ArtefactStore,
    P: Fn(&str) -> Result<RawGroups, EngineError>,
    F: Fn(Progress),
>(
    git: &G,
    base_rev: &str,
    head_rev: &str,
    o: &CoreOptions<'_, S>,
    stage: &StageOptions<'_, B, C, A>,
    parse: &P,
    progress: &F,
) -> (r: Result<PipelineOutput, EngineError>)
    requires
        forall|t: &str| #[trigger] call_requires(*parse, (t,)),
        forall|p: Progress| #[trigger] call_requires(*progress, (p,)),
    ensures
        is_grouped_run(git, *o, *stage, *parse, base_rev@, head_rev@, r),
{
    let core = run_core_with_progress(git, base_rev, head_rev, o, progress);
    let ghost ran = core;
    let mut out = match core {
        Ok(out) => out,
        Err(e) => {
            return Err(e);
        },
    };
    let ghost was = out;
    let doc = match out.document.take() {
        Some(doc) => doc,
        None => {
            progress(Progress::Done);
            return Ok(out);
        },
    };
    assert(was.document == Some(doc));
    let fingerprint = o.langs.fingerprint();
    let grouped = group_document(
        doc,
        stage.template,
        stage.artefacts,
        &stage.grouping,
        &fingerprint,
        parse,
        progress,
    );
    let ghost staged = grouped;
    let mut g = match grouped {
        Ok(g) => g,
        Err(e) => {
            assert(is_grouped_document(git, *o, *stage, *parse, was, doc, Err(e)));
            return Err(e);
        },
    };
    let ghost before = g;
    progress(Progress::Arranging);
    proof {
        lemma_in_range(&out.view);
    }
    let parsed = parse_files(git, out.head.as_str(), &out.view, o.symbols);
    let ghost read = parsed;
    let symbols = match parsed {
        Ok(symbols) => symbols,
        Err(e) => {
            assert(is_ordered_run(git, *o, was, before, Err(e)));
            assert(is_grouped_document(git, *o, *stage, *parse, was, doc, Err(e)));
            return Err(e);
        },
    };
    let plain = reaching(&symbols);
    assert(all_reaching(plain@, symbols@));
    ordering::apply(&mut g, &out.view, &plain);
    out.document = Some(g);
    progress(Progress::Done);
    assert(is_arranged(was, before, plain@, Ok(out)));
    assert(is_ordered_run(git, *o, was, before, Ok(out)));
    assert(is_grouped_document(git, *o, *stage, *parse, was, doc, Ok(out)));
    Ok(out)
}

/// An attribute marks a path unless it is not specified, not set or false.
pub proof fn law_an_attribute_marks_unless_it_says_no(
    answers: &Vec<AttrValue>,
    r: Vec<Vec<u8>>,
    path: Seq<u8>,
)
    requires
        call_ensures(marked_paths, (answers,), r),
    ensures
        (exists|k: int| 0 <= k < r@.len() && (#[trigger] r@[k])@ == path) <==> exists|i: int|
            0 <= i < answers@.len() && (#[trigger] answers@[i]).path@ == path && answers@[i].value@
                != encode_utf8("unspecified"@) && answers@[i].value@ != encode_utf8("unset"@)
                && answers@[i].value@ != encode_utf8("false"@),
{
    let all = views(r@);
    assert(all.len() == r@.len());
    assert(all.contains(path) <==> marked_by(answers@, path));
    if all.contains(path) {
        let k = choose|k: int| 0 <= k < all.len() && all[k] == path;
        assert(r@[k]@ == path);
        let i = choose|i: int|
            0 <= i < answers@.len() && (#[trigger] answers@[i]).path@ == path && marks_generated(
                answers@[i].value@,
            );
        assert(answers@[i].path@ == path);
    }
    if exists|k: int| 0 <= k < r@.len() && (#[trigger] r@[k])@ == path {
        let k = choose|k: int| 0 <= k < r@.len() && (#[trigger] r@[k])@ == path;
        assert(all[k] == path);
    }
    if exists|i: int|
        0 <= i < answers@.len() && (#[trigger] answers@[i]).path@ == path && answers@[i].value@
            != encode_utf8("unspecified"@) && answers@[i].value@ != encode_utf8("unset"@)
            && answers@[i].value@ != encode_utf8("false"@) {
        let i = choose|i: int|
            0 <= i < answers@.len() && (#[trigger] answers@[i]).path@ == path && answers@[i].value@
                != encode_utf8("unspecified"@) && answers@[i].value@ != encode_utf8("unset"@)
                && answers@[i].value@ != encode_utf8("false"@);
        assert(marks_generated(answers@[i].value@));
        assert(marked_by(answers@, path));
    }
}

} // verus!
