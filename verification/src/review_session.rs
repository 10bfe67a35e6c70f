//! An open review: the session over one plan document.
//!
//! Renderers are stateless frontends. A `ReviewSession` owns the store, the
//! document, the diff view and all mutable review state: reviewed marks, findings,
//! the resume cursor. Every mutation is written before it returns, so a renderer
//! can crash at any point without losing anything, and never touches the store
//! itself.
use vstd::prelude::*;

use crate::hash::sha1_prefix;
use crate::model::{DiffView, Hunk};
use crate::plan::ids::{fault, groups_of, valid, HunkId};
use crate::plan::identity::{hash_of_plan, plan_hash};
use crate::plan::view::{all_digests, is_group_view, ReviewView};
use crate::ports::ReviewStore;
use crate::review_state::{
    at_least_one, counted_from, finding_preimage, reanchor, reanchored, side_lines, side_start,
    Anchor, Finding, FindingStatus, Lines, ReviewState, FINDING_ID_LENGTH,
};
use crate::schema::{HunkEntry, PlanDocument};
use crate::seqs::{lemma_push_contains, texts};
use crate::text::{lossy, lossy_text, push_str, str_eq};
use crate::EngineError;

verus! {

pub struct ReviewSession<S: ReviewStore> {
    store: S,
    doc: PlanDocument,
    /// Hunk bytes. Not to be confused with `plan`, the document's arithmetic.
    view: DiffView,
    plan: ReviewView,
    plan_hash: String,
    state: ReviewState,
    findings: Vec<Finding>,
}

/// One open finding as a line of markdown: the file, the lines, the note.
pub open spec fn summary_line(f: Finding) -> Seq<char> {
    "- "@ + f.anchor.file@ + ":"@ + f.anchor.span_text() + ": "@ + f.body@ + "\n"@
}

/// The lines of the open findings among the first `k`.
pub open spec fn summary_lines(findings: Seq<Finding>, k: nat) -> Seq<char>
    decreases k,
{
    if k == 0 {
        Seq::empty()
    } else if findings[k - 1].status == FindingStatus::Open {
        summary_lines(findings, (k - 1) as nat) + summary_line(findings[k - 1])
    } else {
        summary_lines(findings, (k - 1) as nat)
    }
}

/// The open findings as markdown, or a line that says there are none.
pub open spec fn summary(findings: Seq<Finding>) -> Seq<char> {
    let lines = summary_lines(findings, findings.len());
    if lines.len() == 0 {
        "(no open findings)\n"@
    } else {
        lines
    }
}

/// The open findings as markdown: one `- file:lines: note` per line.
///
/// Says nothing about groups: a group is how one reader chose to read the
/// branch, and the summary is pasted somewhere that has no idea of it.
pub fn summarize(findings: &Vec<Finding>) -> (r: String)
    ensures
        r@ == summary(findings@),
{
    let mut out = String::new();
    assert(out@ =~= summary_lines(findings@, 0));
    for i in 0..findings.len()
        invariant
            out@ == summary_lines(findings@, i as nat),
    {
        let f = &findings[i];
        let ghost had = out@;
        if matches!(f.status, FindingStatus::Open) {
            let mut line = "- ".to_owned();
            push_str(&mut line, &f.anchor.file);
            push_str(&mut line, ":");
            push_str(&mut line, &f.anchor.line_span());
            push_str(&mut line, ": ");
            push_str(&mut line, &f.body);
            push_str(&mut line, "\n");
            assert(line@ == summary_line(*f));
            push_str(&mut out, &line);
            assert(out@ == summary_lines(findings@, (i + 1) as nat));
        }
    }
    proof {
        reveal_strlit("");
        assert(""@ =~= Seq::<char>::empty());
    }
    assert(out@.len() == 0 ==> out@ =~= ""@);
    if str_eq(&out, "") {
        "(no open findings)\n".to_owned()
    } else {
        out
    }
}

/// The lines that a finding points at.
pub struct Pointed {
    pub side: Seq<char>,
    pub start: u32,
    pub end: u32,
    pub start_text: Seq<char>,
    pub end_text: Seq<char>,
}

/// The first changed line of a hunk: of what it adds, or else of what it removes.
pub open spec fn first_changed(h: Hunk) -> Seq<char> {
    if h.added@.len() > 0 {
        lossy_text(h.added@[0]@)
    } else if h.removed@.len() > 0 {
        lossy_text(h.removed@[0]@)
    } else {
        Seq::empty()
    }
}

/// What a reader pointed at; from the header of a hunk, its first changed line.
pub open spec fn pointed(lines: Option<Lines>, entry: HunkEntry, h: Hunk) -> Pointed {
    match lines {
        Some(l) => Pointed {
            side: l.side@,
            start: l.start,
            end: l.end,
            start_text: l.start_text@,
            end_text: l.end_text@,
        },
        None => {
            let new_side = entry.new_count > 0;
            let line = at_least_one(
                if new_side {
                    entry.new_start
                } else {
                    entry.old_start
                },
            );
            Pointed {
                side: if new_side {
                    "new"@
                } else {
                    "old"@
                },
                start: line,
                end: line,
                start_text: first_changed(h),
                end_text: first_changed(h),
            }
        },
    }
}

/// The text of a line for re-anchoring: the hunk's own bytes wherever it is one of
/// its changed lines, else what the reader saw.
pub open spec fn key_text(
    entry: HunkEntry,
    h: Hunk,
    side: Seq<char>,
    line: u32,
    seen: Seq<char>,
) -> Seq<char> {
    let old = side == "old"@;
    let start = side_start(side, entry.old_start, entry.new_start);
    let count = if old {
        entry.old_count
    } else {
        entry.new_count
    };
    let lines = side_lines(h, old);
    if start <= line && line < start + count && line < u32::MAX && line - start < lines.len() {
        lossy_text(lines[line - start]@)
    } else {
        seen
    }
}

/// The anchor of a finding on a hunk: an offset into the hunk, so that it survives
/// the hunk moving in the file. The offset is signed and never clamped.
pub open spec fn anchored(a: Anchor, entry: HunkEntry, h: Hunk, p: Pointed) -> bool {
    let end = if p.end >= p.start {
        p.end
    } else {
        p.start
    };
    let start = side_start(p.side, entry.old_start, entry.new_start);
    &&& a.file@ == entry.file@
    &&& a.side@ == p.side
    &&& a.line == p.start
    &&& a.end_line == end
    &&& a.offset == (p.start - start) as i32
    &&& a.span == end - p.start
    &&& a.hunk_digest@ == entry.digest@
    &&& a.line_text@ == key_text(entry, h, p.side, p.start, p.start_text)
    &&& a.end_line_text@ == key_text(entry, h, p.side, end, p.end_text)
}

/// Whether a finding is a new one on a hunk.
pub open spec fn is_finding(
    f: Finding,
    entry: HunkEntry,
    h: Hunk,
    lines: Option<Lines>,
    body: Seq<char>,
    created: u64,
    plan: Seq<char>,
) -> bool {
    &&& anchored(f.anchor, entry, h, pointed(lines, entry, h))
    &&& f.id@ == sha1_prefix(
        finding_preimage(entry.digest@, created, body),
        FINDING_ID_LENGTH as int,
    )
    &&& f.created == created
    &&& f.body@ == body
    &&& f.status == FindingStatus::Open
    &&& !f.moved
    &&& f.plan_hash@ == plan
    &&& f.upstream is None
    &&& f.reply_to is None
}

fn read_line(
    entry: &HunkEntry,
    h: &Hunk,
    side: &String,
    line: u32,
    seen: &String,
) -> (r: String)
    ensures
        r@ == key_text(*entry, *h, side@, line, seen@),
{
    let old = str_eq(side, "old");
    let at: u32 = if old {
        entry.old_start
    } else {
        entry.new_start
    };
    let start: u32 = if at >= 1 {
        at
    } else {
        1
    };
    let count: u32 = if old {
        entry.old_count
    } else {
        entry.new_count
    };
    let lines = if old {
        &h.removed
    } else {
        &h.added
    };
    if line >= start && line < start.saturating_add(count) {
        let k: usize = (line - start) as usize;
        if k < lines.len() {
            return lossy(lines[k].as_slice());
        }
    }
    seen.clone()
}

/// The lines a finding points at: what the reader pointed at, or the first
/// changed line of the hunk.
fn lines_or_first(lines: Option<Lines>, entry: &HunkEntry, h: &Hunk) -> (r: Lines)
    ensures
        pointed(Some(r), *entry, *h) == pointed(lines, *entry, *h),
{
    match lines {
        Some(l) => l,
        None => {
            let text = if h.added.len() > 0 {
                lossy(h.added[0].as_slice())
            } else if h.removed.len() > 0 {
                lossy(h.removed[0].as_slice())
            } else {
                String::new()
            };
            let new_side = entry.new_count > 0;
            let at: u32 = if new_side {
                entry.new_start
            } else {
                entry.old_start
            };
            let line: u32 = if at >= 1 {
                at
            } else {
                1
            };
            let side = if new_side {
                "new".to_owned()
            } else {
                "old".to_owned()
            };
            assert(text@ =~= first_changed(*h));
            Lines { side, start: line, end: line, start_text: text.clone(), end_text: text }
        },
    }
}

/// The anchor of a finding on a hunk.
pub fn anchor_at(entry: &HunkEntry, h: &Hunk, lines: Option<Lines>) -> (r: Anchor)
    ensures
        anchored(r, *entry, *h, pointed(lines, *entry, *h)),
{
    let l = lines_or_first(lines, entry, h);
    let end: u32 = if l.end >= l.start {
        l.end
    } else {
        l.start
    };
    let at: u32 = if str_eq(&l.side, "old") {
        entry.old_start
    } else {
        entry.new_start
    };
    let start: u32 = if at >= 1 {
        at
    } else {
        1
    };
    let distance: i64 = l.start as i64 - start as i64;
    Anchor {
        file: entry.file.clone(),
        line: l.start,
        end_line: end,
        offset: #[verifier::truncate] (distance as i32),
        span: end - l.start,
        hunk_digest: entry.digest.clone(),
        line_text: read_line(entry, h, &l.side, l.start, &l.start_text),
        end_line_text: read_line(entry, h, &l.side, end, &l.end_text),
        side: l.side,
    }
}

/// The first finding with an id, from place `from` on.
pub open spec fn first_id(findings: Seq<Finding>, id: Seq<char>, from: int) -> Option<int>
    decreases findings.len() - from,
{
    if from >= findings.len() {
        None
    } else if findings[from].id@ == id {
        Some(from)
    } else {
        first_id(findings, id, from + 1)
    }
}

/// Rewrite the body of the first finding with an id. Returns whether there is one.
pub fn rewrite(findings: &mut Vec<Finding>, id: &str, body: String) -> (r: bool)
    ensures
        match first_id(old(findings)@, id@, 0) {
            Some(i) => r && final(findings)@ == old(findings)@.update(
                i,
                (Finding { body, ..old(findings)@[i] }),
            ),
            None => !r && final(findings)@ == old(findings)@,
        },
{
    let n = findings.len();
    for i in 0..n
        invariant
            n == findings@.len(),
            findings@ == old(findings)@,
            first_id(findings@, id@, 0) == first_id(findings@, id@, i as int),
    {
        if str_eq(&findings[i].id, id) {
            findings[i].body = body;
            assert(findings@ =~= old(findings)@.update(
                i as int,
                (Finding { body, ..old(findings)@[i as int] }),
            ));
            return true;
        }
    }
    false
}

/// What is left of the first `k` findings without those of an id.
pub open spec fn without(findings: Seq<Finding>, id: Seq<char>, k: nat) -> Seq<Finding>
    decreases k,
{
    if k == 0 {
        Seq::empty()
    } else if findings[k - 1].id@ == id {
        without(findings, id, (k - 1) as nat)
    } else {
        without(findings, id, (k - 1) as nat).push(findings[k - 1])
    }
}

proof fn lemma_without(findings: Seq<Finding>, id: Seq<char>, k: nat)
    requires
        k <= findings.len(),
    ensures
        without(findings, id, k).len() <= k,
        without(findings, id, k).len() == k ==> without(findings, id, k) == findings.take(k as int),
        (without(findings, id, k).len() == k) <==> (forall|i: int|
            0 <= i < k ==> (#[trigger] findings[i]).id@ != id),
    decreases k,
{
    if k > 0 {
        lemma_without(findings, id, (k - 1) as nat);
        if without(findings, id, k).len() == k {
            assert(findings.take(k as int) =~= findings.take(k - 1).push(findings[k - 1]));
        }
    }
}

/// Whether some finding has an id.
pub open spec fn has_id(findings: Seq<Finding>, id: Seq<char>) -> bool {
    exists|i: int| 0 <= i < findings.len() && (#[trigger] findings[i]).id@ == id
}

/// Delete the findings with an id. Returns whether anything was removed.
pub fn delete(findings: &mut Vec<Finding>, id: &str) -> (r: bool)
    ensures
        final(findings)@ == without(old(findings)@, id@, old(findings)@.len()),
        r == has_id(old(findings)@, id@),
{
    let ghost was = findings@;
    let n = findings.len();
    let mut i: usize = 0;
    let mut removed = false;
    let mut kept: Vec<Finding> = Vec::new();
    while i < n
        invariant
            i <= n,
            n == was.len(),
            was == old(findings)@,
            findings@ == was.skip(i as int),
            kept@ == without(was, id@, i as nat),
            removed == (kept@.len() < i),
        decreases n - i,
    {
        proof {
            lemma_without(was, id@, i as nat);
        }
        let f = findings.remove(0);
        assert(f == was[i as int]);
        if str_eq(&f.id, id) {
            removed = true;
        } else {
            kept.push(f);
        }
        i = i + 1;
        assert(findings@ =~= was.skip(i as int));
    }
    proof {
        lemma_without(was, id@, n as nat);
    }
    *findings = kept;
    removed
}

/// The marks after a toggle.
pub open spec fn toggled(marks: Set<Seq<char>>, key: Seq<char>) -> Set<Seq<char>> {
    if marks.contains(key) {
        marks.remove(key)
    } else {
        marks.insert(key)
    }
}

impl<S: ReviewStore> ReviewSession<S> {
    /// Where the review is kept.
    pub closed spec fn kept_in(&self) -> S {
        self.store
    }

    /// The plan document that is reviewed.
    pub closed spec fn document(&self) -> PlanDocument {
        self.doc
    }

    /// The bytes of its hunks.
    pub closed spec fn bytes(&self) -> DiffView {
        self.view
    }

    /// The document's projection.
    pub closed spec fn projection(&self) -> ReviewView {
        self.plan
    }

    /// The hash of the document.
    pub closed spec fn hash(&self) -> Seq<char> {
        self.plan_hash@
    }

    /// What the reader has done.
    pub closed spec fn progress(&self) -> ReviewState {
        self.state
    }

    /// The findings.
    pub closed spec fn notes(&self) -> Vec<Finding> {
        self.findings
    }

    /// Whether the document does not contradict itself and the projection is one of
    /// it.
    pub open spec fn wf(&self) -> bool {
        &&& valid(&self.document())
        &&& texts(self.projection().digests@) == all_digests(&self.document())
        &&& self.projection().groups@.len() == groups_of(&self.document()).len()
        &&& forall|g: int|
            0 <= g < self.projection().groups@.len() ==> is_group_view(
                #[trigger] self.projection().groups@[g],
                &self.document(),
                g,
            )
    }

    /// Whether two sessions are of one plan and one store.
    pub open spec fn same_review(&self, other: &Self) -> bool {
        &&& self.kept_in() == other.kept_in()
        &&& self.document() == other.document()
        &&& self.bytes() == other.bytes()
        &&& self.projection() == other.projection()
        &&& self.hash() == other.hash()
    }

    /// Whether the store was given this session's state, and what it answered.
    pub open spec fn state_saved(&self, answer: Result<(), EngineError>) -> bool {
        call_ensures(S::save_state, (&self.kept_in(), &self.progress()), answer)
    }

    /// Whether the store was given this session's findings, and what it answered.
    pub open spec fn notes_saved(&self, answer: Result<(), EngineError>) -> bool {
        call_ensures(S::save_findings, (&self.kept_in(), &self.notes()), answer)
    }

    /// Open (or resume) a review: keep the plan, load and re-anchor the findings,
    /// load the state. `json` is the document's text, of which the plan's hash is
    /// made.
    pub fn open(store: S, doc: PlanDocument, json: &str, view: DiffView) -> (r: Result<
        Self,
        EngineError,
    >)
        requires
            view.wf(),
            view.hunks@.len() <= doc.hunks@.len(),
        ensures
            match r {
                Ok(s) => {
                    &&& s.wf()
                    &&& valid(&doc)
                    &&& s.kept_in() == store
                    &&& s.document() == doc
                    &&& s.bytes() == view
                    &&& s.hash() == hash_of_plan(json@)
                    &&& exists|hash: &str, answer: Result<(), EngineError>|
                        hash@ == s.hash() && answer is Ok && #[trigger] call_ensures(
                            S::save_plan,
                            (&store, hash, json),
                            answer,
                        )
                    &&& exists|loaded: Vec<Finding>|
                        {
                            &&& #[trigger] call_ensures(S::load_findings, (&store,), Ok(loaded))
                            &&& s.notes()@.len() == loaded@.len()
                            &&& forall|i: int|
                                0 <= i < loaded@.len() ==> reanchored(
                                    #[trigger] s.notes()@[i],
                                    loaded@[i],
                                    &doc,
                                    &view,
                                    s.hash(),
                                )
                        }
                    &&& exists|answer: Result<(), EngineError>|
                        answer is Ok && #[trigger] s.notes_saved(answer)
                    &&& call_ensures(S::load_state, (&store,), Ok(s.progress()))
                },
                Err(e) => {
                    ||| exists|hash: &str|
                        hash@ == hash_of_plan(json@) && #[trigger] call_ensures(
                            S::save_plan,
                            (&store, hash, json),
                            Err(e),
                        )
                    ||| call_ensures(S::load_findings, (&store,), Err(e))
                    ||| exists|v: &Vec<Finding>| #[trigger]
                        call_ensures(S::save_findings, (&store, v), Err(e))
                    ||| call_ensures(S::load_state, (&store,), Err(e))
                    ||| e matches EngineError::PlanIntegrity(m) && fault(&doc) == Some(m@)
                },
            },
    {
        let hash = plan_hash(json);
        let text: &str = hash.as_str();
        let kept = store.save_plan(text, json);
        assert(call_ensures(S::save_plan, (&store, text, json), kept));
        if let Err(e) = kept {
            return Err(e);
        }
        let mut findings = match store.load_findings() {
            Ok(f) => f,
            Err(e) => {
                return Err(e);
            },
        };
        reanchor(&mut findings, &doc, &view, text);
        let saved = store.save_findings(&findings);
        if let Err(e) = saved {
            return Err(e);
        }
        let state = match store.load_state() {
            Ok(s) => s,
            Err(e) => {
                return Err(e);
            },
        };
        let plan = match ReviewView::project(&doc) {
            Ok(p) => p,
            Err(e) => {
                return Err(e);
            },
        };
        let s = ReviewSession { store, doc, view, plan, plan_hash: hash, state, findings };
        assert(s.notes_saved(saved));
        Ok(s)
    }

    pub fn doc(&self) -> (r: &PlanDocument)
        ensures
            *r == self.document(),
    {
        &self.doc
    }

    /// The document's projection: groups, files, counts, dependency edges and
    /// keys. Renderers read this instead of deriving it again.
    pub fn plan(&self) -> (r: &ReviewView)
        ensures
            *r == self.projection(),
    {
        &self.plan
    }

    pub fn plan_hash(&self) -> (r: &str)
        ensures
            r@ == self.hash(),
    {
        self.plan_hash.as_str()
    }

    pub fn findings(&self) -> (r: &Vec<Finding>)
        ensures
            *r == self.notes(),
    {
        &self.findings
    }

    /// The reviewed-mark key of a hunk: its exact content digest.
    pub fn hunk_key(&self, hunk: usize) -> (r: &str)
        requires
            self.wf(),
            hunk < self.document().hunks@.len(),
        ensures
            r@ == self.document().hunks@[hunk as int].digest@,
    {
        proof {
            let digests = texts(self.projection().digests@);
            assert(digests.len() == all_digests(&self.document()).len());
            assert(digests[hunk as int] == all_digests(&self.document())[hunk as int]);
        }
        self.plan.digest(HunkId::from_index(hunk))
    }

    /// Whether a hunk is one of this review, in the document and in its bytes.
    pub fn has_hunk(&self, hunk: usize) -> (r: bool)
        ensures
            r == (hunk < self.document().hunks@.len() && hunk < self.bytes().hunks@.len()),
    {
        hunk < self.doc.hunks.len() && hunk < self.view.hunks.len()
    }

    pub fn is_reviewed(&self, hunk_key: &str) -> (r: bool)
        ensures
            r == self.progress().marks().contains(hunk_key@),
    {
        self.state.is_marked(hunk_key)
    }

    /// Whether a hunk of this document is marked.
    pub open spec fn hunk_marked(&self, h: int) -> bool {
        0 <= h < self.document().hunks@.len() && self.progress().marks().contains(
            self.document().hunks@[h].digest@,
        )
    }

    /// Canonical hunk indices marked reviewed, in order.
    ///
    /// Keys from an earlier plan stay on file and revive if their content comes
    /// back, so only marks that land on a hunk of this document are listed.
    pub fn reviewed_hunks(&self) -> (r: Vec<usize>)
        requires
            self.wf(),
        ensures
            forall|i: int, j: int| 0 <= i < j < r@.len() ==> r@[i] < r@[j],
            forall|h: usize| #[trigger] r@.contains(h) <==> self.hunk_marked(h as int),
    {
        let mut out: Vec<usize> = Vec::new();
        let n = self.doc.hunks.len();
        for h in 0..n
            invariant
                self.wf(),
                n == self.document().hunks@.len(),
                forall|i: int| 0 <= i < out@.len() ==> (#[trigger] out@[i]) < h,
                forall|i: int, j: int| 0 <= i < j < out@.len() ==> out@[i] < out@[j],
                forall|x: usize| #[trigger]
                    out@.contains(x) <==> x < h && self.hunk_marked(x as int),
        {
            let ghost was = out@;
            let key = self.hunk_key(h);
            if self.state.is_marked(key) {
                out.push(h);
            }
            proof {
                assert forall|x: usize| #[trigger]
                    out@.contains(x) <==> x < h + 1 && self.hunk_marked(x as int) by {
                    if was.contains(x) {
                        let k = choose|k: int| 0 <= k < was.len() && was[k] == x;
                        assert(out@[k] == x);
                    }
                    if out@.len() > was.len() {
                        assert(out@[was.len() as int] == h);
                    }
                    if out@.contains(x) && x != h {
                        let k = choose|k: int| 0 <= k < out@.len() && out@[k] == x;
                        assert(was[k] == x);
                    }
                }
            }
        }
        out
    }

    /// How many hunks of this document are marked: never more than it has.
    pub fn reviewed_count(&self) -> (r: usize)
        requires
            self.wf(),
        ensures
            exists|places: Seq<usize>|
                {
                    &&& r == places.len()
                    &&& forall|i: int, j: int|
                        0 <= i < j < places.len() ==> places[i] < places[j]
                    &&& forall|h: usize| #[trigger]
                        places.contains(h) <==> self.hunk_marked(h as int)
                },
    {
        let places = self.reviewed_hunks();
        assert(forall|h: usize| #[trigger]
            places@.contains(h) <==> self.hunk_marked(h as int));
        places.len()
    }

    pub fn cursor(&self) -> (r: Option<&(String, usize)>)
        ensures
            match self.progress().cursor {
                Some(c) => r == Some(&c),
                None => r is None,
            },
    {
        match &self.state.cursor {
            Some(c) => Some(c),
            None => None,
        }
    }

    /// The reader's recorded layout choice, or `None` if they have not made one.
    pub fn split_diff(&self) -> (r: Option<bool>)
        ensures
            r == self.progress().split_diff,
    {
        self.state.split_diff
    }

    pub fn file_view(&self) -> (r: bool)
        ensures
            r == self.progress().file_view,
    {
        self.state.file_view
    }

    /// The reader's recorded wrap choice, or `None` if they have not made one.
    pub fn wrap(&self) -> (r: Option<bool>)
        ensures
            r == self.progress().wrap,
    {
        self.state.wrap
    }

    /// The open findings as markdown.
    pub fn findings_summary(&self) -> (r: String)
        ensures
            r@ == summary(self.notes()@),
    {
        summarize(&self.findings)
    }

    /// Toggle the reviewed mark of a hunk. Returns the new mark.
    pub fn toggle_reviewed(&mut self, hunk: usize) -> (r: Result<bool, EngineError>)
        requires
            old(self).wf(),
            hunk < old(self).document().hunks@.len(),
        ensures
            final(self).same_review(old(self)),
            final(self).wf(),
            final(self).notes() == old(self).notes(),
            final(self).progress().same_but_marks(&old(self).progress()),
            ({
                let key = old(self).document().hunks@[hunk as int].digest@;
                let marked = old(self).progress().marks().contains(key);
                &&& final(self).progress().marks() == toggled(old(self).progress().marks(), key)
                &&& exists|answer: Result<(), EngineError>|
                    {
                        &&& #[trigger] final(self).state_saved(answer)
                        &&& match answer {
                            Ok(_) => r == Ok::<bool, EngineError>(!marked),
                            Err(e) => r == Err::<bool, EngineError>(e),
                        }
                    }
            }),
    {
        let key = self.hunk_key(hunk).to_owned();
        let now = self.state.mark(&key);
        if !now {
            self.state.unmark(&key);
            assert(self.state.marks() =~= old(self).progress().marks().remove(key@));
        }
        let answer = self.store.save_state(&self.state);
        assert(self.state_saved(answer));
        match answer {
            Ok(_) => Ok(now),
            Err(e) => Err(e),
        }
    }

    /// Mark a whole set of hunks reviewed (or not) in one write.
    ///
    /// Set semantics, not toggle: a partially reviewed group resolves to the
    /// requested state instead of inverting member by member.
    pub fn set_reviewed(&mut self, hunk_keys: &[String], on: bool) -> (r: Result<(), EngineError>)
        ensures
            final(self).same_review(old(self)),
            final(self).notes() == old(self).notes(),
            final(self).progress().same_but_marks(&old(self).progress()),
            final(self).progress().marks() == (if on {
                old(self).progress().marks().union(texts(hunk_keys@).to_set())
            } else {
                old(self).progress().marks().difference(texts(hunk_keys@).to_set())
            }),
            final(self).state_saved(r),
    {
        let ghost names = texts(hunk_keys@);
        let ghost before = self.state.marks();
        assert(names.take(0).to_set() =~= Set::empty());
        for i in 0..hunk_keys.len()
            invariant
                names == texts(hunk_keys@),
                before == old(self).progress().marks(),
                self.same_review(old(self)),
                self.notes() == old(self).notes(),
                self.progress().same_but_marks(&old(self).progress()),
                self.progress().marks() =~= (if on {
                    before.union(names.take(i as int).to_set())
                } else {
                    before.difference(names.take(i as int).to_set())
                }),
        {
            proof {
                let part = names.take(i as int);
                assert(names.take(i + 1) =~= part.push(names[i as int]));
                assert forall|x: Seq<char>| #[trigger]
                    names.take(i + 1).to_set().contains(x) <==> part.to_set().contains(x) || x
                        == names[i as int] by {
                    lemma_push_contains(part, names[i as int], x);
                }
            }
            if on {
                let fresh = self.state.mark(&hunk_keys[i]);
            } else {
                self.state.unmark(&hunk_keys[i]);
            }
        }
        assert(names.take(names.len() as int) =~= names);
        self.store.save_state(&self.state)
    }

    /// Keep the resume position: (group id or file path, row offset).
    pub fn save_cursor(&mut self, id: String, row: usize) -> (r: Result<(), EngineError>)
        ensures
            final(self).same_review(old(self)),
            final(self).notes() == old(self).notes(),
            final(self).progress() == (ReviewState {
                cursor: Some((id, row)),
                ..old(self).progress()
            }),
            final(self).state_saved(r),
    {
        self.state.cursor = Some((id, row));
        self.store.save_state(&self.state)
    }

    /// Keep the diff layout (unified or side by side).
    pub fn set_split_diff(&mut self, on: bool) -> (r: Result<(), EngineError>)
        ensures
            final(self).same_review(old(self)),
            final(self).notes() == old(self).notes(),
            final(self).progress() == (ReviewState {
                split_diff: Some(on),
                ..old(self).progress()
            }),
            final(self).state_saved(r),
    {
        self.state.split_diff = Some(on);
        self.store.save_state(&self.state)
    }

    /// Keep the soft-wrap choice.
    pub fn set_wrap(&mut self, on: bool) -> (r: Result<(), EngineError>)
        ensures
            final(self).same_review(old(self)),
            final(self).notes() == old(self).notes(),
            final(self).progress() == (ReviewState { wrap: Some(on), ..old(self).progress() }),
            final(self).state_saved(r),
    {
        self.state.wrap = Some(on);
        self.store.save_state(&self.state)
    }

    /// Keep the left-pane view (semantic groups or the flat file list).
    pub fn set_file_view(&mut self, on: bool) -> (r: Result<(), EngineError>)
        ensures
            final(self).same_review(old(self)),
            final(self).notes() == old(self).notes(),
            final(self).progress() == (ReviewState { file_view: on, ..old(self).progress() }),
            final(self).state_saved(r),
    {
        self.state.file_view = on;
        self.store.save_state(&self.state)
    }

    /// Create a finding on a hunk, made at `created`, keep it, and give it back.
    pub fn add_finding(
        &mut self,
        hunk: usize,
        lines: Option<Lines>,
        body: String,
        created: u64,
    ) -> (r: Result<&Finding, EngineError>)
        requires
            hunk < old(self).document().hunks@.len(),
            hunk < old(self).bytes().hunks@.len(),
        ensures
            final(self).same_review(old(self)),
            final(self).progress() == old(self).progress(),
            final(self).notes()@.len() == old(self).notes()@.len() + 1,
            final(self).notes()@.drop_last() == old(self).notes()@,
            is_finding(
                final(self).notes()@.last(),
                old(self).document().hunks@[hunk as int],
                old(self).bytes().hunks@[hunk as int],
                lines,
                body@,
                created,
                old(self).hash(),
            ),
            match r {
                Ok(finding) => *finding == final(self).notes()@.last() && final(self).notes_saved(
                    Ok::<(), EngineError>(()),
                ),
                Err(e) => final(self).notes_saved(Err::<(), EngineError>(e)),
            },
    {
        let anchor = anchor_at(&self.doc.hunks[hunk], &self.view.hunks[hunk], lines);
        let finding = Finding::new(created, body, self.plan_hash.clone(), anchor);
        self.findings.push(finding);
        assert(self.findings@.drop_last() =~= old(self).findings@);
        let answer = self.store.save_findings(&self.findings);
        assert(self.notes_saved(answer));
        match answer {
            Ok(done) => {
                assert(done == ());
                assert(answer == Ok::<(), EngineError>(()));
                Ok(&self.findings[self.findings.len() - 1])
            },
            Err(e) => Err(e),
        }
    }

    /// Rewrite a finding's body in place. Returns whether one was found.
    ///
    /// The id is a handle, not a hash of the text: rewriting a note is not filing
    /// a different one.
    pub fn edit_finding(&mut self, id: &str, body: String) -> (r: Result<bool, EngineError>)
        ensures
            final(self).same_review(old(self)),
            final(self).progress() == old(self).progress(),
            match first_id(old(self).notes()@, id@, 0) {
                None => final(self).notes()@ == old(self).notes()@ && r == Ok::<bool, EngineError>(
                    false,
                ),
                Some(i) => {
                    &&& final(self).notes()@ == old(self).notes()@.update(
                        i,
                        (Finding { body, ..old(self).notes()@[i] }),
                    )
                    &&& exists|answer: Result<(), EngineError>|
                        {
                            &&& #[trigger] final(self).notes_saved(answer)
                            &&& match answer {
                                Ok(_) => r == Ok::<bool, EngineError>(true),
                                Err(e) => r == Err::<bool, EngineError>(e),
                            }
                        }
                },
            },
    {
        if !rewrite(&mut self.findings, id, body) {
            return Ok(false);
        }
        let answer = self.store.save_findings(&self.findings);
        assert(self.notes_saved(answer));
        match answer {
            Ok(_) => Ok(true),
            Err(e) => Err(e),
        }
    }

    /// Delete a finding by id. Returns whether anything was removed.
    pub fn delete_finding(&mut self, id: &str) -> (r: Result<bool, EngineError>)
        ensures
            final(self).same_review(old(self)),
            final(self).progress() == old(self).progress(),
            final(self).notes()@ == without(old(self).notes()@, id@, old(self).notes()@.len()),
            if has_id(old(self).notes()@, id@) {
                exists|answer: Result<(), EngineError>|
                    {
                        &&& #[trigger] final(self).notes_saved(answer)
                        &&& match answer {
                            Ok(_) => r == Ok::<bool, EngineError>(true),
                            Err(e) => r == Err::<bool, EngineError>(e),
                        }
                    }
            } else {
                final(self).notes()@ == old(self).notes()@ && r == Ok::<bool, EngineError>(false)
            },
    {
        proof {
            let was = self.findings@;
            lemma_without(was, id@, was.len());
            assert(was.take(was.len() as int) =~= was);
        }
        if !delete(&mut self.findings, id) {
            return Ok(false);
        }
        let answer = self.store.save_findings(&self.findings);
        assert(self.notes_saved(answer));
        match answer {
            Ok(_) => Ok(true),
            Err(e) => Err(e),
        }
    }

    /// Delete every finding, in one write. Returns how many there were.
    pub fn clear_findings(&mut self) -> (r: Result<usize, EngineError>)
        ensures
            final(self).same_review(old(self)),
            final(self).progress() == old(self).progress(),
            final(self).notes()@.len() == 0,
            ({
                let n = old(self).notes()@.len() as usize;
                if n == 0 {
                    r == Ok::<usize, EngineError>(0)
                } else {
                    exists|answer: Result<(), EngineError>|
                        {
                            &&& #[trigger] final(self).notes_saved(answer)
                            &&& match answer {
                                Ok(_) => r == Ok::<usize, EngineError>(n),
                                Err(e) => r == Err::<usize, EngineError>(e),
                            }
                        }
                }
            }),
    {
        let n = self.findings.len();
        if n == 0 {
            return Ok(0);
        }
        self.findings = Vec::new();
        let answer = self.store.save_findings(&self.findings);
        assert(self.notes_saved(answer));
        match answer {
            Ok(_) => Ok(n),
            Err(e) => Err(e),
        }
    }
}

/// Toggling twice gives back the marks that there were.
pub proof fn law_toggling_twice_restores(marks: Set<Seq<char>>, key: Seq<char>)
    ensures
        ({
            let once = toggled(marks, key);
            toggled(once, key) == marks
        }),
{
    assert(toggled(toggled(marks, key), key) =~= marks);
}

/// A deleted id is gone, and every other finding stays as it was.
pub proof fn law_deleting_removes_one_id(findings: Seq<Finding>, id: Seq<char>, k: nat)
    requires
        k <= findings.len(),
    ensures
        !has_id(without(findings, id, k), id),
        forall|i: int|
            0 <= i < k && (#[trigger] findings[i]).id@ != id ==> without(findings, id, k).contains(
                findings[i],
            ),
    decreases k,
{
    if k > 0 {
        law_deleting_removes_one_id(findings, id, (k - 1) as nat);
        let rest = without(findings, id, (k - 1) as nat);
        let all = without(findings, id, k);
        assert forall|i: int| 0 <= i < k && (#[trigger] findings[i]).id@ != id implies all.contains(
            findings[i],
        ) by {
            if all.len() > rest.len() {
                lemma_push_contains(rest, findings[k - 1], findings[i]);
            }
        }
        if has_id(all, id) {
            let i = choose|i: int| 0 <= i < all.len() && (#[trigger] all[i]).id@ == id;
            if i < rest.len() {
                assert(rest[i].id@ == id);
            }
        }
    }
}

/// A finding is anchored where the reader pointed: on that side, from the first line to
/// the last, as far from where the hunk's lines begin on that side. The text of a line is
/// the hunk's own where the hunk changes it, and what the reader saw elsewhere.
pub proof fn law_a_finding_is_anchored_where_it_points(
    entry: &HunkEntry,
    h: &Hunk,
    l: Lines,
    a: Anchor,
)
    requires
        call_ensures(anchor_at, (entry, h, Some(l)), a),
    ensures
        a.file@ == entry.file@,
        a.hunk_digest@ == entry.digest@,
        a.side@ == l.side@,
        a.line == l.start,
        a.end_line == (if l.end < l.start {
            l.start
        } else {
            l.end
        }),
        a.line + a.span == a.end_line,
        -0x8000_0000 <= l.start - counted_from(l.side@, entry.old_start, entry.new_start)
            <= 0x7fff_ffff ==> a.offset == l.start - counted_from(
            l.side@,
            entry.old_start,
            entry.new_start,
        ),
        ({
            let at = l.start - counted_from(l.side@, entry.old_start, entry.new_start);
            let lines = if l.side@ == "old"@ {
                h.removed@
            } else {
                h.added@
            };
            let count = if l.side@ == "old"@ {
                entry.old_count
            } else {
                entry.new_count
            };
            &&& 0 <= at < count && at < lines.len() && l.start < u32::MAX ==> a.line_text@
                == lossy_text(lines[at]@)
            &&& at < 0 || at >= count || at >= lines.len() ==> a.line_text@ == l.start_text@
        }),
{
}

/// From the header of a hunk a finding points at its first changed line: the first added
/// one where it adds lines, the first removed one where it does not.
pub proof fn law_a_finding_on_a_hunk_points_at_its_first_line(
    entry: &HunkEntry,
    h: &Hunk,
    a: Anchor,
)
    requires
        call_ensures(anchor_at, (entry, h, None::<Lines>), a),
        h.added@.len() == entry.new_count,
        h.removed@.len() == entry.old_count,
        entry.new_start < u32::MAX,
        entry.old_start < u32::MAX,
    ensures
        a.file@ == entry.file@,
        a.hunk_digest@ == entry.digest@,
        a.offset == 0,
        a.span == 0,
        a.end_line == a.line,
        entry.new_count > 0 ==> {
            &&& a.side@ == "new"@
            &&& entry.new_start > 0 ==> a.line == entry.new_start
            &&& a.line_text@ == lossy_text(h.added@[0]@)
        },
        entry.new_count == 0 ==> {
            &&& a.side@ == "old"@
            &&& entry.old_start > 0 ==> a.line == entry.old_start
            &&& entry.old_count > 0 ==> a.line_text@ == lossy_text(h.removed@[0]@)
        },
{
    reveal_strlit("old");
    reveal_strlit("new");
    assert("new"@ != "old"@) by {
        assert("new"@[0] != "old"@[0]);
    }
}

/// Deleting takes out every finding with the id and leaves the others as they were, in
/// their order.
pub proof fn law_deleting_leaves_the_others(findings: Seq<Finding>, id: Seq<char>)
    ensures
        without(findings, id, findings.len()) == findings.filter(|f: Finding| f.id@ != id),
{
    lemma_without_is_filter(findings, id, findings.len());
    assert(findings.take(findings.len() as int) =~= findings);
}

proof fn lemma_without_is_filter(findings: Seq<Finding>, id: Seq<char>, k: nat)
    requires
        k <= findings.len(),
    ensures
        without(findings, id, k) == findings.take(k as int).filter(|f: Finding| f.id@ != id),
    decreases k,
{
    reveal(Seq::filter);
    if k > 0 {
        lemma_without_is_filter(findings, id, (k - 1) as nat);
        let taken = findings.take(k as int);
        assert(taken.drop_last() =~= findings.take(k - 1));
        assert(taken.last() == findings[k - 1]);
    }
}

/// The finding that an id names is the first one with it.
pub proof fn law_an_id_names_the_first_finding(findings: Seq<Finding>, id: Seq<char>)
    ensures
        match first_id(findings, id, 0) {
            Some(i) => 0 <= i < findings.len() && findings[i].id@ == id && forall|j: int|
                0 <= j < i ==> (#[trigger] findings[j]).id@ != id,
            None => forall|j: int| 0 <= j < findings.len() ==> (#[trigger] findings[j]).id@ != id,
        },
{
    lemma_first_id(findings, id, 0);
}

proof fn lemma_first_id(findings: Seq<Finding>, id: Seq<char>, from: int)
    requires
        0 <= from,
    ensures
        match first_id(findings, id, from) {
            Some(i) => from <= i < findings.len() && findings[i].id@ == id && forall|j: int|
                from <= j < i ==> (#[trigger] findings[j]).id@ != id,
            None => forall|j: int|
                from <= j < findings.len() ==> (#[trigger] findings[j]).id@ != id,
        },
    decreases findings.len() - from,
{
    if from < findings.len() && findings[from].id@ != id {
        lemma_first_id(findings, id, from + 1);
    }
}

/// A toggle changes the mark of its key and of no other.
pub proof fn law_a_toggle_changes_one_mark(
    marks: Set<Seq<char>>,
    key: Seq<char>,
    other: Seq<char>,
)
    ensures
        toggled(marks, key).contains(key) <==> !marks.contains(key),
        other != key ==> (toggled(marks, key).contains(other) <==> marks.contains(other)),
{
}

} // verus!
