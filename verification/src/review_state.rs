//! Review state: regeneration is total, state is a sidecar.
//!
//! Plan documents are immutable and content-addressed; reviewed marks and
//! findings key on exact hunk digests, so both survive the head moving and
//! positional ids shifting. Re-anchoring never drops anything: an exact digest
//! match reattaches, a same-file content match reattaches flagged as moved,
//! otherwise the finding is orphaned and listed.
use vstd::bytes::{spec_u64_to_le_bytes, u64_to_le_bytes};
use vstd::prelude::*;
use vstd::string::*;
use vstd::utf8::encode_utf8;

use crate::hash::{hex_text, sha1_digest, sha1_prefix, sha1_short};
use crate::model::{DiffView, Hunk};
use crate::plan::identity::lemma_encoding_tells;
use crate::schema::{HunkEntry, PlanDocument};
use crate::seqs::{bytes_eq, lemma_push_contains, texts};
use crate::text::{decimal, push_decimal, push_str, str_eq};

verus! {

/// What a reader has done to one review.
#[derive(Debug, Clone)]
pub struct ReviewState {
    /// Digests of the hunks marked reviewed, each once.
    pub reviewed_hunks: Vec<String>,
    /// Resume position: (group id or file path, row offset) in the last-open plan.
    pub cursor: Option<(String, usize)>,
    /// The reader's diff-layout choice, or `None` if they have not made one.
    pub split_diff: Option<bool>,
    /// The reader's soft-wrap choice, or `None` if they have not made one.
    pub wrap: Option<bool>,
    /// Flattened per-file view instead of semantic groups.
    pub file_view: bool,
}

impl Default for ReviewState {
    fn default() -> (r: Self)
        ensures
            r.reviewed_hunks@.len() == 0,
            r.cursor is None,
            r.split_diff is None,
            r.wrap is None,
            !r.file_view,
    {
        ReviewState {
            reviewed_hunks: Vec::new(),
            cursor: None,
            split_diff: None,
            wrap: None,
            file_view: false,
        }
    }
}

impl ReviewState {
    /// The digests marked reviewed, as a set.
    pub open spec fn marks(&self) -> Set<Seq<char>> {
        texts(self.reviewed_hunks@).to_set()
    }

    /// Whether two states differ in their reviewed marks at most.
    pub open spec fn same_but_marks(&self, other: &ReviewState) -> bool {
        &&& self.cursor == other.cursor
        &&& self.split_diff == other.split_diff
        &&& self.wrap == other.wrap
        &&& self.file_view == other.file_view
    }

    /// Whether a digest is marked reviewed.
    pub fn is_marked(&self, key: &str) -> (r: bool)
        ensures
            r == self.marks().contains(key@),
    {
        let ghost names = texts(self.reviewed_hunks@);
        for i in 0..self.reviewed_hunks.len()
            invariant
                names == texts(self.reviewed_hunks@),
                forall|k: int| 0 <= k < i ==> #[trigger] names[k] != key@,
        {
            if str_eq(&self.reviewed_hunks[i], key) {
                assert(names[i as int] == key@);
                return true;
            }
            assert(names[i as int] != key@);
        }
        false
    }

    /// Mark a digest reviewed. Returns whether it was not marked before.
    pub fn mark(&mut self, key: &str) -> (r: bool)
        ensures
            r == !old(self).marks().contains(key@),
            final(self).marks() == old(self).marks().insert(key@),
            final(self).same_but_marks(old(self)),
    {
        let ghost was = texts(self.reviewed_hunks@);
        if self.is_marked(key) {
            assert(self.marks() =~= old(self).marks().insert(key@));
            return false;
        }
        self.reviewed_hunks.push(key.to_owned());
        proof {
            let now = texts(self.reviewed_hunks@);
            assert(now =~= was.push(key@));
            assert forall|x: Seq<char>| now.to_set().contains(x) <==> was.to_set().insert(
                key@,
            ).contains(x) by {
                if was.contains(x) {
                    let k = choose|k: int| 0 <= k < was.len() && was[k] == x;
                    assert(now[k] == x);
                }
                assert(now[was.len() as int] == key@);
            }
            assert(now.to_set() =~= was.to_set().insert(key@));
        }
        true
    }

    /// Take the mark off a digest.
    pub fn unmark(&mut self, key: &str)
        ensures
            final(self).marks() == old(self).marks().remove(key@),
            final(self).same_but_marks(old(self)),
    {
        let ghost was = texts(self.reviewed_hunks@);
        let mut kept: Vec<String> = Vec::new();
        for i in 0..self.reviewed_hunks.len()
            invariant
                was == texts(self.reviewed_hunks@),
                *self == *old(self),
                forall|x: Seq<char>| #[trigger]
                    texts(kept@).contains(x) <==> x != key@ && was.take(i as int).contains(x),
        {
            let ghost had = texts(kept@);
            let ghost part = was.take(i as int);
            if !str_eq(&self.reviewed_hunks[i], key) {
                kept.push(self.reviewed_hunks[i].clone());
                assert(texts(kept@) =~= had.push(was[i as int]));
            }
            proof {
                assert(was.take(i + 1) =~= part.push(was[i as int]));
                assert forall|x: Seq<char>| #[trigger]
                    texts(kept@).contains(x) <==> x != key@ && was.take(i + 1).contains(x) by {
                    lemma_push_contains(had, was[i as int], x);
                    lemma_push_contains(part, was[i as int], x);
                }
            }
        }
        assert(was.take(was.len() as int) =~= was);
        assert(texts(kept@).to_set() =~= was.to_set().remove(key@));
        self.reviewed_hunks = kept;
    }
}

/// Where a finding stands.
#[derive(Debug, Clone, Copy, PartialEq, Eq, Structural)]
pub enum FindingStatus {
    Open,
    Resolved,
    Orphaned,
}

/// The lines that a finding annotates.
#[derive(Debug, Clone, PartialEq, Eq)]
pub struct Anchor {
    pub file: String,
    /// "old" | "new"
    pub side: String,
    /// First anchored line, in file coordinates. Derived: `offset` is what
    /// survives a regeneration.
    pub line: u32,
    /// Last anchored line; below `line` it reads as "just `line`".
    pub end_line: u32,
    /// Lines from the hunk's start to `line`. Signed: a reader can annotate a
    /// context line, and context sits on both sides of a hunk.
    pub offset: i32,
    /// Lines the anchor spans past `offset`. `0` is a single line.
    pub span: u32,
    pub hunk_digest: String,
    /// The anchored line's text: the key for a match by content.
    pub line_text: String,
    /// The last anchored line's text.
    pub end_line_text: String,
}

/// The larger of a start line and 1.
pub open spec fn at_least_one(n: u32) -> u32 {
    if n >= 1 {
        n
    } else {
        1
    }
}

/// Where one side of a hunk begins in the file: the old side only where `side`
/// says "old".
pub open spec fn side_start(side: Seq<char>, old_start: u32, new_start: u32) -> u32 {
    at_least_one(
        if side == "old"@ {
            old_start
        } else {
            new_start
        },
    )
}

/// The line at an offset from a start, kept within the line numbers that exist.
pub open spec fn line_at(start: u32, offset: i32) -> u32 {
    if start + offset < 1 {
        1
    } else if start + offset > u32::MAX {
        u32::MAX
    } else {
        (start + offset) as u32
    }
}

/// The last line of a span.
pub open spec fn line_after(line: u32, span: u32) -> u32 {
    if line + span > u32::MAX {
        u32::MAX
    } else {
        (line + span) as u32
    }
}

impl Anchor {
    /// Where the anchor's side of a hunk begins in the file.
    pub fn hunk_start(&self, old_start: u32, new_start: u32) -> (r: u32)
        ensures
            r == side_start(self.side@, old_start, new_start),
    {
        let start = if str_eq(&self.side, "old") {
            old_start
        } else {
            new_start
        };
        if start >= 1 {
            start
        } else {
            1
        }
    }

    /// The lines this annotates, as a reader writes them.
    pub open spec fn span_text(&self) -> Seq<char> {
        if self.end_line > self.line {
            decimal(self.line as nat) + "-"@ + decimal(self.end_line as nat)
        } else {
            decimal(self.line as nat)
        }
    }

    /// The lines this annotates, as a reader writes them: `47`, or `47-52`.
    pub fn line_span(&self) -> (r: String)
        ensures
            r@ == self.span_text(),
    {
        let mut out = String::new();
        push_decimal(&mut out, self.line as u64);
        if self.end_line > self.line {
            push_str(&mut out, "-");
            push_decimal(&mut out, self.end_line as u64);
        }
        assert(out@ =~= self.span_text());
        out
    }

    /// Recompute the line numbers from the offset the anchor really carries.
    pub fn resolve(&mut self, start: u32)
        ensures
            final(self).line == line_at(start, old(self).offset),
            final(self).end_line == line_after(final(self).line, old(self).span),
            final(self).offset == old(self).offset,
            final(self).span == old(self).span,
            final(self).file == old(self).file,
            final(self).side == old(self).side,
            final(self).hunk_digest == old(self).hunk_digest,
            final(self).line_text == old(self).line_text,
            final(self).end_line_text == old(self).end_line_text,
    {
        let at: i64 = start as i64 + self.offset as i64;
        self.line = if at < 1 {
            1
        } else if at > u32::MAX as i64 {
            u32::MAX
        } else {
            at as u32
        };
        self.end_line = self.line.saturating_add(self.span);
    }
}

/// The lines a reader pointed at, in file coordinates: an observation, not a
/// decision.
#[derive(Debug, Clone)]
pub struct Lines {
    /// "old" | "new"
    pub side: String,
    pub start: u32,
    pub end: u32,
    pub start_text: String,
    pub end_text: String,
}

/// Where a finding stands on a forge.
#[derive(Debug, Clone, PartialEq, Eq)]
pub struct Upstream {
    pub thread: String,
    pub comment: String,
}

/// One note of a reader.
#[derive(Debug, Clone, PartialEq, Eq)]
pub struct Finding {
    pub id: String,
    /// Unix seconds.
    pub created: u64,
    pub body: String,
    pub status: FindingStatus,
    /// Reattached by content match rather than exact digest.
    pub moved: bool,
    pub plan_hash: String,
    pub anchor: Anchor,
    /// Where it was published, if it was.
    pub upstream: Option<Upstream>,
    /// The thread that it answers, if it does.
    pub reply_to: Option<String>,
}

/// The length of a finding's id.
pub const FINDING_ID_LENGTH: usize = 12;

/// What a finding's id is the hash of: the digest of its hunk, when it was made,
/// and what it says.
pub open spec fn finding_preimage(digest: Seq<char>, created: u64, body: Seq<char>) -> Seq<u8> {
    encode_utf8(digest) + spec_u64_to_le_bytes(created) + encode_utf8(body)
}

impl Finding {
    /// A new, open finding.
    pub fn new(created: u64, body: String, plan_hash: String, anchor: Anchor) -> (r: Self)
        ensures
            r.id@ == sha1_prefix(
                finding_preimage(anchor.hunk_digest@, created, body@),
                FINDING_ID_LENGTH as int,
            ),
            r.created == created,
            r.body == body,
            r.status == FindingStatus::Open,
            !r.moved,
            r.plan_hash == plan_hash,
            r.anchor == anchor,
            r.upstream is None,
            r.reply_to is None,
    {
        let mut text: Vec<u8> = Vec::new();
        text.extend_from_slice(anchor.hunk_digest.as_str().as_bytes());
        let stamp = u64_to_le_bytes(created);
        text.extend_from_slice(&stamp);
        text.extend_from_slice(body.as_str().as_bytes());
        assert(text@ =~= finding_preimage(anchor.hunk_digest@, created, body@));
        Finding {
            id: sha1_short(&text, FINDING_ID_LENGTH),
            created,
            body,
            status: FindingStatus::Open,
            moved: false,
            plan_hash,
            anchor,
            upstream: None,
            reply_to: None,
        }
    }
}

/// The first hunk of the document with a digest, from place `from` on.
pub open spec fn first_digest(hunks: Seq<HunkEntry>, digest: Seq<char>, from: int) -> Option<int>
    decreases hunks.len() - from,
{
    if from >= hunks.len() {
        None
    } else if hunks[from].digest@ == digest {
        Some(from)
    } else {
        first_digest(hunks, digest, from + 1)
    }
}

/// The first of some lines that is `text`, from place `from` on.
pub open spec fn first_line(lines: Seq<Vec<u8>>, text: Seq<u8>, from: int) -> Option<int>
    decreases lines.len() - from,
{
    if from >= lines.len() {
        None
    } else if lines[from]@ == text {
        Some(from)
    } else {
        first_line(lines, text, from + 1)
    }
}

/// Whether a hunk lies in a file and changes a line that is `text`.
pub open spec fn changes_line(view: &DiffView, h: Hunk, path: Seq<u8>, text: Seq<u8>) -> bool {
    &&& view.files@[h.file as int].path@ == path
    &&& first_line(h.added@, text, 0) is Some || first_line(h.removed@, text, 0) is Some
}

/// The first hunk of a file that changes a line that is `text`, from place `from`
/// on.
pub open spec fn first_change(
    view: &DiffView,
    path: Seq<u8>,
    text: Seq<u8>,
    from: int,
) -> Option<int>
    decreases view.hunks@.len() - from,
{
    if from >= view.hunks@.len() {
        None
    } else if changes_line(view, view.hunks@[from], path, text) {
        Some(from)
    } else {
        first_change(view, path, text, from + 1)
    }
}

/// The lines of one side of a hunk.
pub open spec fn side_lines(h: Hunk, old: bool) -> Seq<Vec<u8>> {
    if old {
        h.removed@
    } else {
        h.added@
    }
}

/// Where a line sits in a hunk: on the anchor's own side if it is there, else on
/// the other one.
pub open spec fn found_in(h: Hunk, own_old: bool, text: Seq<u8>) -> Option<(bool, int)> {
    match first_line(side_lines(h, own_old), text, 0) {
        Some(p) => Some((own_old, p)),
        None => match first_line(side_lines(h, !own_old), text, 0) {
            Some(p) => Some((!own_old, p)),
            None => None,
        },
    }
}

pub open spec fn side_name(old: bool) -> Seq<char> {
    if old {
        "old"@
    } else {
        "new"@
    }
}

/// An orphan that is found again is open again.
pub open spec fn revived(s: FindingStatus) -> FindingStatus {
    if s == FindingStatus::Orphaned {
        FindingStatus::Open
    } else {
        s
    }
}

/// What never changes: the id, the text, when it was made, and what the forge
/// knows of it.
pub open spec fn same_note(new: Finding, old: Finding) -> bool {
    &&& new.id == old.id
    &&& new.created == old.created
    &&& new.body == old.body
    &&& new.upstream == old.upstream
    &&& new.reply_to == old.reply_to
}

/// Reattached to a hunk with the same digest: the offset holds, only the position
/// in the file is read again.
pub open spec fn reattached(new: Finding, old: Finding, h: HunkEntry, plan: Seq<char>) -> bool {
    let start = side_start(old.anchor.side@, h.old_start, h.new_start);
    &&& same_note(new, old)
    &&& new.plan_hash@ == plan
    &&& !new.moved
    &&& new.status == revived(old.status)
    &&& new.anchor.file@ == h.file@
    &&& new.anchor.side == old.anchor.side
    &&& new.anchor.offset == old.anchor.offset
    &&& new.anchor.span == old.anchor.span
    &&& new.anchor.hunk_digest == old.anchor.hunk_digest
    &&& new.anchor.line_text == old.anchor.line_text
    &&& new.anchor.end_line_text == old.anchor.end_line_text
    &&& new.anchor.line == line_at(start, old.anchor.offset)
    &&& new.anchor.end_line == line_after(new.anchor.line, old.anchor.span)
}

/// Reattached to a hunk of the same file that holds the anchored line: the offset
/// is where the line now sits, in the numbering of the side that it was found on.
pub open spec fn moved_to(
    new: Finding,
    old: Finding,
    h: Hunk,
    entry: HunkEntry,
    plan: Seq<char>,
) -> bool {
    let own_old = old.anchor.side@ == "old"@;
    let text = encode_utf8(old.anchor.line_text@);
    &&& same_note(new, old)
    &&& new.plan_hash@ == plan
    &&& new.moved
    &&& new.status == revived(old.status)
    &&& new.anchor.file == old.anchor.file
    &&& new.anchor.span == old.anchor.span
    &&& new.anchor.hunk_digest@ == entry.digest@
    &&& new.anchor.line_text == old.anchor.line_text
    &&& new.anchor.end_line_text == old.anchor.end_line_text
    &&& found_in(h, own_old, text) matches Some((side_old, p)) && {
        &&& new.anchor.side@ == side_name(side_old)
        &&& new.anchor.offset == p as i32
        &&& new.anchor.line == line_at(
            side_start(side_name(side_old), h.old_start, h.new_start),
            new.anchor.offset,
        )
        &&& new.anchor.end_line == line_after(new.anchor.line, old.anchor.span)
    }
}

/// What re-anchoring makes of a finding.
pub open spec fn reanchored(
    new: Finding,
    old: Finding,
    doc: &PlanDocument,
    view: &DiffView,
    plan: Seq<char>,
) -> bool {
    if old.plan_hash@ == plan {
        new == old
    } else {
        match first_digest(doc.hunks@, old.anchor.hunk_digest@, 0) {
            Some(i) => reattached(new, old, doc.hunks@[i], plan),
            None => {
                let text = encode_utf8(old.anchor.line_text@);
                let hit = if text.len() == 0 {
                    None
                } else {
                    first_change(view, encode_utf8(old.anchor.file@), text, 0)
                };
                match hit {
                    Some(i) => moved_to(new, old, view.hunks@[i], doc.hunks@[i], plan),
                    None => {
                        &&& same_note(new, old)
                        &&& new.status == FindingStatus::Orphaned
                        &&& new.moved == old.moved
                        &&& new.plan_hash == old.plan_hash
                        &&& new.anchor == old.anchor
                    },
                }
            },
        }
    }
}

fn find_digest(hunks: &Vec<HunkEntry>, digest: &str) -> (r: Option<usize>)
    ensures
        match r {
            Some(i) => i < hunks@.len() && first_digest(hunks@, digest@, 0) == Some(i as int),
            None => first_digest(hunks@, digest@, 0) is None,
        },
{
    for i in 0..hunks.len()
        invariant
            first_digest(hunks@, digest@, 0) == first_digest(hunks@, digest@, i as int),
    {
        if str_eq(&hunks[i].digest, digest) {
            return Some(i);
        }
    }
    None
}

/// Find a line.
pub fn find_line(lines: &Vec<Vec<u8>>, text: &[u8]) -> (r: Option<usize>)
    ensures
        match r {
            Some(i) => i < lines@.len() && first_line(lines@, text@, 0) == Some(i as int),
            None => first_line(lines@, text@, 0) is None,
        },
{
    for i in 0..lines.len()
        invariant
            first_line(lines@, text@, 0) == first_line(lines@, text@, i as int),
    {
        if bytes_eq(&lines[i], text) {
            return Some(i);
        }
    }
    None
}

fn find_change(view: &DiffView, path: &[u8], text: &[u8]) -> (r: Option<usize>)
    requires
        view.wf(),
    ensures
        match r {
            Some(i) => i < view.hunks@.len() && first_change(view, path@, text@, 0) == Some(
                i as int,
            ) && changes_line(view, view.hunks@[i as int], path@, text@),
            None => first_change(view, path@, text@, 0) is None,
        },
{
    for i in 0..view.hunks.len()
        invariant
            view.wf(),
            first_change(view, path@, text@, 0) == first_change(view, path@, text@, i as int),
    {
        let h = &view.hunks[i];
        let file = view.file_of(h);
        if bytes_eq(&file.path, path) && (find_line(&h.added, text).is_some() || find_line(
            &h.removed,
            text,
        ).is_some()) {
            return Some(i);
        }
    }
    None
}

fn find_in(h: &Hunk, own_old: bool, text: &[u8]) -> (r: Option<(bool, usize)>)
    ensures
        match r {
            Some((o, p)) => found_in(*h, own_old, text@) == Some((o, p as int)),
            None => found_in(*h, own_old, text@) is None,
        },
{
    let own = if own_old {
        find_line(&h.removed, text)
    } else {
        find_line(&h.added, text)
    };
    if let Some(p) = own {
        return Some((own_old, p));
    }
    let other = if own_old {
        find_line(&h.added, text)
    } else {
        find_line(&h.removed, text)
    };
    match other {
        Some(p) => Some((!own_old, p)),
        None => None,
    }
}

fn reanchor_one(f: &mut Finding, doc: &PlanDocument, view: &DiffView, plan_hash: &str)
    requires
        view.wf(),
        view.hunks@.len() <= doc.hunks@.len(),
    ensures
        reanchored(*final(f), *old(f), doc, view, plan_hash@),
{
    if str_eq(&f.plan_hash, plan_hash) {
        return;
    }
    if let Some(i) = find_digest(&doc.hunks, &f.anchor.hunk_digest) {
        let h = &doc.hunks[i];
        f.anchor.file = h.file.clone();
        let start = f.anchor.hunk_start(h.old_start, h.new_start);
        f.anchor.resolve(start);
        f.plan_hash = plan_hash.to_owned();
        f.moved = false;
        if f.status == FindingStatus::Orphaned {
            f.status = FindingStatus::Open;
        }
        return;
    }
    let line_text = f.anchor.line_text.clone();
    let file = f.anchor.file.clone();
    let text: &[u8] = line_text.as_str().as_bytes();
    let hit = if text.len() == 0 {
        None
    } else {
        find_change(view, file.as_str().as_bytes(), text)
    };
    match hit {
        Some(i) => {
            let h = &view.hunks[i];
            let own_old = str_eq(&f.anchor.side, "old");
            f.anchor.hunk_digest = doc.hunks[i].digest.clone();
            let (side_old, p): (bool, usize) = match find_in(h, own_old, text) {
                Some(pair) => pair,
                None => {
                    assert(false);
                    (own_old, 0)
                },
            };
            f.anchor.side = if side_old {
                "old".to_owned()
            } else {
                "new".to_owned()
            };
            assert(f.anchor.side@ == side_name(side_old));
            proof {
                reveal_strlit("old");
                reveal_strlit("new");
            }
            assert(("new"@ == "old"@) == false) by {
                assert("new"@[0] != "old"@[0]);
            }
            f.anchor.offset = #[verifier::truncate] (p as i32);
            let start = f.anchor.hunk_start(h.old_start, h.new_start);
            f.anchor.resolve(start);
            f.plan_hash = plan_hash.to_owned();
            f.moved = true;
            if f.status == FindingStatus::Orphaned {
                f.status = FindingStatus::Open;
            }
        },
        None => {
            f.status = FindingStatus::Orphaned;
        },
    }
}

/// Re-anchor findings onto a (possibly regenerated) plan. Never drops one: an
/// exact digest reattaches, a same-file content match reattaches flagged as moved,
/// otherwise the finding is orphaned, and revived if a later plan matches again.
pub fn reanchor(findings: &mut Vec<Finding>, doc: &PlanDocument, view: &DiffView, plan_hash: &str)
    requires
        view.wf(),
        view.hunks@.len() <= doc.hunks@.len(),
    ensures
        final(findings)@.len() == old(findings)@.len(),
        forall|i: int|
            0 <= i < old(findings)@.len() ==> reanchored(
                #[trigger] final(findings)@[i],
                old(findings)@[i],
                doc,
                view,
                plan_hash@,
            ),
{
    let ghost was = findings@;
    let n = findings.len();
    for i in 0..n
        invariant
            n == was.len(),
            was == old(findings)@,
            view.wf(),
            view.hunks@.len() <= doc.hunks@.len(),
            findings@.len() == n,
            forall|k: int|
                0 <= k < i ==> reanchored(
                    #[trigger] findings@[k],
                    was[k],
                    doc,
                    view,
                    plan_hash@,
                ),
            forall|k: int| i <= k < n ==> findings@[k] == was[k],
    {
        let ghost before = findings@;
        reanchor_one(&mut findings[i], doc, view, plan_hash);
        assert(forall|j: int| 0 <= j < n && j != i ==> findings@[j] == before[j]);
    }
}

/// Re-anchoring keeps every note: its id, its text and when it was made.
pub proof fn law_reanchoring_keeps_the_note(
    new: Finding,
    old: Finding,
    doc: &PlanDocument,
    view: &DiffView,
    plan: Seq<char>,
)
    requires
        reanchored(new, old, doc, view, plan),
    ensures
        same_note(new, old),
{
}

/// An orphan whose hunk comes back is open again, and a finding that nothing
/// matches is an orphan.
pub proof fn law_orphans_are_revived(
    new: Finding,
    old: Finding,
    doc: &PlanDocument,
    view: &DiffView,
    plan: Seq<char>,
)
    requires
        reanchored(new, old, doc, view, plan),
        old.plan_hash@ != plan,
        old.status == FindingStatus::Orphaned,
    ensures
        first_digest(doc.hunks@, old.anchor.hunk_digest@, 0) is Some ==> new.status
            == FindingStatus::Open,
        new.status == FindingStatus::Orphaned || new.plan_hash@ == plan,
{
}

// ---------------------------------------------------------------------------
// Where a finding is found again

/// Where the lines of a side are counted from: the start of the hunk on that side,
/// which is line 1 at least.
pub open spec fn counted_from(side: Seq<char>, old_start: u32, new_start: u32) -> int {
    let start: u32 = if side == "old"@ {
        old_start
    } else {
        new_start
    };
    if start == 0 {
        1
    } else {
        start as int
    }
}

/// Whether a hunk of a document is the first one with a digest.
pub open spec fn is_first_with_digest(doc: &PlanDocument, i: int, digest: Seq<char>) -> bool {
    &&& 0 <= i < doc.hunks@.len()
    &&& doc.hunks@[i].digest@ == digest
    &&& forall|j: int| 0 <= j < i ==> (#[trigger] doc.hunks@[j]).digest@ != digest
}

/// Whether one of some lines is a text.
pub open spec fn has_line(lines: Seq<Vec<u8>>, text: Seq<u8>) -> bool {
    exists|k: int| 0 <= k < lines.len() && (#[trigger] lines[k])@ == text
}

/// Whether a hunk of a view lies in a file and adds or removes a line.
pub open spec fn touches_line(view: &DiffView, i: int, path: Seq<u8>, text: Seq<u8>) -> bool {
    let h = view.hunks@[i];
    view.files@[h.file as int].path@ == path && (has_line(h.added@, text) || has_line(
        h.removed@,
        text,
    ))
}

proof fn lemma_first_digest(hunks: Seq<HunkEntry>, digest: Seq<char>, from: int)
    requires
        0 <= from,
    ensures
        match first_digest(hunks, digest, from) {
            Some(i) => from <= i < hunks.len() && hunks[i].digest@ == digest && forall|j: int|
                from <= j < i ==> (#[trigger] hunks[j]).digest@ != digest,
            None => forall|j: int|
                from <= j < hunks.len() ==> (#[trigger] hunks[j]).digest@ != digest,
        },
    decreases hunks.len() - from,
{
    if from < hunks.len() && hunks[from].digest@ != digest {
        lemma_first_digest(hunks, digest, from + 1);
    }
}

pub proof fn lemma_first_line(lines: Seq<Vec<u8>>, text: Seq<u8>, from: int)
    requires
        0 <= from,
    ensures
        match first_line(lines, text, from) {
            Some(i) => from <= i < lines.len() && lines[i]@ == text && forall|j: int|
                from <= j < i ==> (#[trigger] lines[j])@ != text,
            None => forall|j: int| from <= j < lines.len() ==> (#[trigger] lines[j])@ != text,
        },
    decreases lines.len() - from,
{
    if from < lines.len() && lines[from]@ != text {
        lemma_first_line(lines, text, from + 1);
    }
}

proof fn lemma_changes_line(view: &DiffView, i: int, path: Seq<u8>, text: Seq<u8>)
    ensures
        changes_line(view, view.hunks@[i], path, text) <==> touches_line(view, i, path, text),
{
    let h = view.hunks@[i];
    lemma_first_line(h.added@, text, 0);
    lemma_first_line(h.removed@, text, 0);
    if first_line(h.added@, text, 0) is Some {
        assert(h.added@[first_line(h.added@, text, 0)->0]@ == text);
    }
    if first_line(h.removed@, text, 0) is Some {
        assert(h.removed@[first_line(h.removed@, text, 0)->0]@ == text);
    }
}

proof fn lemma_first_change(view: &DiffView, path: Seq<u8>, text: Seq<u8>, from: int)
    requires
        0 <= from,
    ensures
        match first_change(view, path, text, from) {
            Some(i) => from <= i < view.hunks@.len() && touches_line(view, i, path, text) && forall|
                j: int,
            |
                from <= j < i ==> !#[trigger] touches_line(view, j, path, text),
            None => forall|j: int|
                from <= j < view.hunks@.len() ==> !#[trigger] touches_line(view, j, path, text),
        },
    decreases view.hunks@.len() - from,
{
    if from < view.hunks@.len() {
        lemma_changes_line(view, from, path, text);
        if !touches_line(view, from, path, text) {
            lemma_first_change(view, path, text, from + 1);
        }
    }
}

/// Whether two findings are one note: the same id, text and age, published in the same
/// place, answering the same thread.
pub open spec fn one_note(a: Finding, b: Finding) -> bool {
    &&& a.id@ == b.id@
    &&& a.created == b.created
    &&& a.body@ == b.body@
    &&& a.upstream == b.upstream
    &&& a.reply_to == b.reply_to
}

/// A finding whose hunk is in the new plan, by its digest, points at the line of that
/// hunk that it pointed at: its own side, its own offset, counted from where that side
/// of the hunk now starts. Nothing else of the anchor changes but the file, which is the
/// hunk's. It is not flagged as moved, and an orphan is open again.
pub proof fn law_an_exact_digest_keeps_the_line(
    new: Finding,
    old: Finding,
    doc: &PlanDocument,
    view: &DiffView,
    plan: Seq<char>,
    i: int,
)
    requires
        reanchored(new, old, doc, view, plan),
        old.plan_hash@ != plan,
        is_first_with_digest(doc, i, old.anchor.hunk_digest@),
    ensures
        ({
            let h = doc.hunks@[i];
            let at = counted_from(old.anchor.side@, h.old_start, h.new_start) + old.anchor.offset;
            &&& 1 <= at <= u32::MAX ==> new.anchor.line == at
            &&& at < 1 ==> new.anchor.line == 1
            &&& new.anchor.line + old.anchor.span <= u32::MAX ==> new.anchor.end_line
                == new.anchor.line + old.anchor.span
            &&& new.anchor.file@ == h.file@
            &&& new.anchor.side@ == old.anchor.side@
            &&& new.anchor.offset == old.anchor.offset
            &&& new.anchor.span == old.anchor.span
            &&& new.anchor.hunk_digest@ == h.digest@
            &&& new.anchor.line_text@ == old.anchor.line_text@
            &&& new.anchor.end_line_text@ == old.anchor.end_line_text@
            &&& !new.moved
            &&& new.plan_hash@ == plan
            &&& new.status == (if old.status == FindingStatus::Resolved {
                FindingStatus::Resolved
            } else {
                FindingStatus::Open
            })
            &&& one_note(new, old)
        }),
{
    lemma_first_digest(doc.hunks@, old.anchor.hunk_digest@, 0);
    let f = first_digest(doc.hunks@, old.anchor.hunk_digest@, 0);
    assert(f is Some) by {
        assert(doc.hunks@[i].digest@ == old.anchor.hunk_digest@);
    }
    if f->0 < i {
        assert(doc.hunks@[f->0].digest@ != old.anchor.hunk_digest@);
    }
}

/// A finding whose hunk is gone, but whose line is still added or removed in its file,
/// goes to the first hunk that does so and is flagged as moved: to that very line, on its
/// own side where it is there and on the other side else, numbered on the side where it
/// was found.
pub proof fn law_a_line_that_is_still_there_is_followed(
    new: Finding,
    old: Finding,
    doc: &PlanDocument,
    view: &DiffView,
    plan: Seq<char>,
    i: int,
)
    requires
        reanchored(new, old, doc, view, plan),
        old.plan_hash@ != plan,
        forall|j: int|
            0 <= j < doc.hunks@.len() ==> (#[trigger] doc.hunks@[j]).digest@
                != old.anchor.hunk_digest@,
        encode_utf8(old.anchor.line_text@).len() > 0,
        0 <= i < view.hunks@.len(),
        touches_line(
            view,
            i,
            encode_utf8(old.anchor.file@),
            encode_utf8(old.anchor.line_text@),
        ),
        forall|j: int|
            0 <= j < i ==> !#[trigger] touches_line(
                view,
                j,
                encode_utf8(old.anchor.file@),
                encode_utf8(old.anchor.line_text@),
            ),
        view.hunks@[i].added@.len() <= i32::MAX,
        view.hunks@[i].removed@.len() <= i32::MAX,
    ensures
        ({
            let h = view.hunks@[i];
            let text = encode_utf8(old.anchor.line_text@);
            let was_old = old.anchor.side@ == "old"@;
            let on_old = if was_old {
                has_line(h.removed@, text)
            } else {
                !has_line(h.added@, text)
            };
            let lines = if on_old {
                h.removed@
            } else {
                h.added@
            };
            let at = counted_from(new.anchor.side@, h.old_start, h.new_start) + new.anchor.offset;
            &&& new.anchor.side@ == (if on_old {
                "old"@
            } else {
                "new"@
            })
            &&& 0 <= new.anchor.offset < lines.len()
            &&& lines[new.anchor.offset as int]@ == text
            &&& forall|k: int| 0 <= k < new.anchor.offset ==> (#[trigger] lines[k])@ != text
            &&& at <= u32::MAX ==> new.anchor.line == at
            &&& new.anchor.line + old.anchor.span <= u32::MAX ==> new.anchor.end_line
                == new.anchor.line + old.anchor.span
            &&& new.anchor.hunk_digest@ == doc.hunks@[i].digest@
            &&& new.anchor.file@ == old.anchor.file@
            &&& new.anchor.span == old.anchor.span
            &&& new.anchor.line_text@ == old.anchor.line_text@
            &&& new.anchor.end_line_text@ == old.anchor.end_line_text@
            &&& new.moved
            &&& new.plan_hash@ == plan
            &&& new.status == (if old.status == FindingStatus::Resolved {
                FindingStatus::Resolved
            } else {
                FindingStatus::Open
            })
            &&& one_note(new, old)
        }),
{
    let path = encode_utf8(old.anchor.file@);
    let text = encode_utf8(old.anchor.line_text@);
    let h = view.hunks@[i];
    lemma_first_digest(doc.hunks@, old.anchor.hunk_digest@, 0);
    if first_digest(doc.hunks@, old.anchor.hunk_digest@, 0) is Some {
        let j = first_digest(doc.hunks@, old.anchor.hunk_digest@, 0)->0;
        assert(doc.hunks@[j].digest@ != old.anchor.hunk_digest@);
    }
    lemma_first_change(view, path, text, 0);
    assert(first_change(view, path, text, 0) == Some(i)) by {
        let f = first_change(view, path, text, 0);
        if f is None {
            assert(!touches_line(view, i, path, text));
        } else if f->0 < i {
            assert(!touches_line(view, f->0, path, text));
        } else if i < f->0 {
            assert(!touches_line(view, i, path, text));
        }
    }
    lemma_first_line(h.added@, text, 0);
    lemma_first_line(h.removed@, text, 0);
    assert(has_line(h.added@, text) <==> first_line(h.added@, text, 0) is Some);
    assert(has_line(h.removed@, text) <==> first_line(h.removed@, text, 0) is Some);
    reveal_strlit("old");
    reveal_strlit("new");
    assert("new"@ != "old"@) by {
        assert("new"@[0] != "old"@[0]);
    }
}

/// A finding whose hunk is gone, and whose line nothing in its file adds or removes any
/// more, is kept as it was and marked an orphan: none is ever dropped.
pub proof fn law_what_nothing_matches_is_an_orphan(
    new: Finding,
    old: Finding,
    doc: &PlanDocument,
    view: &DiffView,
    plan: Seq<char>,
)
    requires
        reanchored(new, old, doc, view, plan),
        old.plan_hash@ != plan,
        forall|j: int|
            0 <= j < doc.hunks@.len() ==> (#[trigger] doc.hunks@[j]).digest@
                != old.anchor.hunk_digest@,
        encode_utf8(old.anchor.line_text@).len() == 0 || forall|j: int|
            0 <= j < view.hunks@.len() ==> !#[trigger] touches_line(
                view,
                j,
                encode_utf8(old.anchor.file@),
                encode_utf8(old.anchor.line_text@),
            ),
    ensures
        new.status == FindingStatus::Orphaned,
        new.anchor == old.anchor,
        new.moved == old.moved,
        one_note(new, old),
{
    lemma_first_digest(doc.hunks@, old.anchor.hunk_digest@, 0);
    if first_digest(doc.hunks@, old.anchor.hunk_digest@, 0) is Some {
        let j = first_digest(doc.hunks@, old.anchor.hunk_digest@, 0)->0;
        assert(doc.hunks@[j].digest@ != old.anchor.hunk_digest@);
    }
    lemma_first_change(
        view,
        encode_utf8(old.anchor.file@),
        encode_utf8(old.anchor.line_text@),
        0,
    );
}

/// A finding of the plan at hand is left as it is.
pub proof fn law_a_finding_of_this_plan_stays(
    new: Finding,
    old: Finding,
    doc: &PlanDocument,
    view: &DiffView,
    plan: Seq<char>,
)
    requires
        reanchored(new, old, doc, view, plan),
        old.plan_hash@ == plan,
    ensures
        new == old,
{
}

/// The id of a finding is of the hunk that it is on, of when it was made, and of what it
/// says: findings that differ in one of them are never hashed as one text.
pub proof fn law_a_findings_id_is_of_its_content(
    a: Finding,
    plan_a: String,
    b: Finding,
    plan_b: String,
)
    requires
        call_ensures(Finding::new, (a.created, a.body, plan_a, a.anchor), a),
        call_ensures(Finding::new, (b.created, b.body, plan_b, b.anchor), b),
        encode_utf8(a.anchor.hunk_digest@).len() == encode_utf8(b.anchor.hunk_digest@).len(),
    ensures
        exists|x: Seq<u8>, y: Seq<u8>|
            {
                &&& a.id@ == hex_text(#[trigger] sha1_digest(x)).take(12)
                &&& b.id@ == hex_text(#[trigger] sha1_digest(y)).take(12)
                &&& x == y <==> a.anchor.hunk_digest@ == b.anchor.hunk_digest@ && a.created
                    == b.created && a.body@ == b.body@
            },
{
    let x = finding_preimage(a.anchor.hunk_digest@, a.created, a.body@);
    let y = finding_preimage(b.anchor.hunk_digest@, b.created, b.body@);
    if x == y {
        let n = encode_utf8(a.anchor.hunk_digest@).len() as int;
        vstd::bytes::lemma_auto_spec_u64_to_from_le_bytes();
        let (sa, sb) = (spec_u64_to_le_bytes(a.created), spec_u64_to_le_bytes(b.created));
        assert(sa.len() == 8 && sb.len() == 8);
        assert(x.take(n) =~= encode_utf8(a.anchor.hunk_digest@));
        assert(y.take(n) =~= encode_utf8(b.anchor.hunk_digest@));
        assert(x.subrange(n, n + 8) =~= sa);
        assert(y.subrange(n, n + 8) =~= sb);
        assert(x.skip(n + 8) =~= encode_utf8(a.body@));
        assert(y.skip(n + 8) =~= encode_utf8(b.body@));
        lemma_encoding_tells(a.anchor.hunk_digest@, b.anchor.hunk_digest@);
        lemma_encoding_tells(a.body@, b.body@);
        assert(vstd::bytes::spec_u64_from_le_bytes(sa) == a.created);
        assert(vstd::bytes::spec_u64_from_le_bytes(sb) == b.created);
    }
    assert(a.id@ == hex_text(sha1_digest(x)).take(12));
    assert(b.id@ == hex_text(sha1_digest(y)).take(12));
}

} // verus!
