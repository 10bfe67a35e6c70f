//! The forge consumer's domain.
//!
//! What a pull request or merge request is to a review, the forge's review
//! threads as the review sees them, and the two decisions that sit between a
//! forge and the reader's findings: where a fetched thread lands in the diff, and
//! which findings a publish may send.
use vstd::prelude::*;
use vstd::string::*;
use vstd::utf8::encode_utf8;

use crate::model::{DiffView, Hunk};
use crate::plan::staging::opt;
use crate::review_state::{
    at_least_one, find_line, found_in, has_line, lemma_first_line, side_lines, side_name, Anchor,
    Finding, FindingStatus,
};
use crate::schema::{FileEntry, HunkEntry, PlanDocument, Remote, SourceKind};
use crate::text::{lossy, lossy_text, push_str, str_eq};

verus! {

/// Which forge a request lives on.
#[derive(Debug, Clone, Copy, PartialEq, Eq, Structural)]
pub enum ForgeKind {
    Github,
    Gitlab,
}

impl ForgeKind {
    pub open spec fn wire(self) -> Seq<char> {
        match self {
            ForgeKind::Github => "github"@,
            ForgeKind::Gitlab => "gitlab"@,
        }
    }

    /// The ref a clone fetches to get a request's head.
    pub open spec fn head(self, id: Seq<char>) -> Seq<char> {
        match self {
            ForgeKind::Github => "pull/"@ + id + "/head"@,
            ForgeKind::Gitlab => "merge-requests/"@ + id + "/head"@,
        }
    }

    /// The wire name, identical to `source.remote.forge` in the document.
    pub fn name(self) -> (r: &'static str)
        ensures
            r@ == self.wire(),
    {
        match self {
            ForgeKind::Github => "github",
            ForgeKind::Gitlab => "gitlab",
        }
    }

    /// What the forge calls the thing: for messages.
    pub fn noun(self) -> (r: &'static str)
        ensures
            r@ == (match self {
                ForgeKind::Github => "pull request"@,
                ForgeKind::Gitlab => "merge request"@,
            }),
    {
        match self {
            ForgeKind::Github => "pull request",
            ForgeKind::Gitlab => "merge request",
        }
    }

    /// The ref a clone fetches to get a request's head without the branch.
    pub fn head_ref(self, id: &str) -> (r: String)
        ensures
            r@ == self.head(id@),
    {
        let mut out = match self {
            ForgeKind::Github => "pull/".to_owned(),
            ForgeKind::Gitlab => "merge-requests/".to_owned(),
        };
        push_str(&mut out, id);
        push_str(&mut out, "/head");
        out
    }

    /// The kind of source that a request of this forge is.
    pub fn source_kind(self) -> (r: SourceKind)
        ensures
            r == (match self {
                ForgeKind::Github => SourceKind::Pr,
                ForgeKind::Gitlab => SourceKind::Mr,
            }),
    {
        match self {
            ForgeKind::Github => SourceKind::Pr,
            ForgeKind::Gitlab => SourceKind::Mr,
        }
    }
}

/// A request as the forge describes it: the object a review is of.
#[derive(Debug, Clone, PartialEq, Eq)]
pub struct Request {
    pub kind: ForgeKind,
    /// `owner/repo` on GitHub, the full namespaced path on GitLab.
    pub project: String,
    /// The number, as a string.
    pub id: String,
    /// The branch the request targets, for the fetch hint.
    pub base_ref: String,
    /// The tip of that branch, as the forge sees it now.
    pub base_tip: String,
    /// The request's head commit, as the forge sees it now.
    pub head: String,
    pub url: String,
}

/// What a review is filed under.
#[derive(Debug, Clone, PartialEq)]
pub enum ReviewIdentity {
    /// A range: the resolved base and the head as typed.
    Range { base: String, head_spec: String },
    /// A name that the reader chose.
    Named(String),
    /// A request on a forge.
    Remote(Remote),
}

impl Request {
    /// Whether a remote names this request.
    pub open spec fn is_remote(&self, r: Remote) -> bool {
        r.forge@ == self.kind.wire() && r.project == self.project && r.id == self.id
    }

    /// The document's `source.remote`.
    pub fn remote(&self) -> (r: Remote)
        ensures
            self.is_remote(r),
    {
        Remote {
            forge: self.kind.name().to_owned(),
            project: self.project.clone(),
            id: self.id.clone(),
        }
    }

    /// The review this request opens. Keyed like a name: the request is an object,
    /// and its endpoints are attributes that are allowed to move.
    pub fn identity(&self) -> (r: ReviewIdentity)
        ensures
            r matches ReviewIdentity::Remote(remote) && self.is_remote(remote),
    {
        ReviewIdentity::Remote(self.remote())
    }

    /// The command a reader runs when the request's commits are not local.
    pub fn fetch_hint(&self, remote_name: &str) -> (r: String)
        ensures
            r@ == "git fetch "@ + remote_name@ + " "@ + self.base_ref@ + " "@ + self.kind.head(
                self.id@,
            ),
    {
        let mut out = "git fetch ".to_owned();
        push_str(&mut out, remote_name);
        push_str(&mut out, " ");
        push_str(&mut out, &self.base_ref);
        push_str(&mut out, " ");
        push_str(&mut out, &self.kind.head_ref(&self.id));
        out
    }
}

/// One comment in a thread. `reply_to` is `None` on the root.
#[derive(Debug, Clone, PartialEq, Eq)]
pub struct RemoteComment {
    pub id: String,
    pub author: String,
    /// As the forge gives it, ISO 8601.
    pub created: String,
    pub body: String,
    pub reply_to: Option<String>,
}

/// One review thread: where the forge put it, and where this review did.
#[derive(Debug, Clone, PartialEq, Eq)]
pub struct RemoteThread {
    /// The forge's thread id, opaque.
    pub id: String,
    pub resolved: bool,
    /// The forge says the line has left the request's diff.
    pub outdated: bool,
    /// The file's path in the request, which is the new path.
    pub path: String,
    /// `"old"` | `"new"`, the review's words for LEFT and RIGHT.
    pub side: String,
    /// The last (or only) line, in the side's numbering. `None` when outdated.
    pub line: Option<u32>,
    /// The first line of a multi-line thread.
    pub start_line: Option<u32>,
    /// The text of `line`, when the forge recorded the diff around it.
    pub line_text: Option<String>,
    /// Where this review shows the thread. `None` until placed, and `None` after
    /// placing when nothing in the plan holds it.
    pub anchor: Option<Anchor>,
    pub comments: Vec<RemoteComment>,
}

impl RemoteThread {
    /// The comment a reply is threaded under.
    pub fn root(&self) -> (r: Option<&RemoteComment>)
        ensures
            match r {
                Some(c) => self.comments@.len() > 0 && *c == self.comments@[0],
                None => self.comments@.len() == 0,
            },
    {
        if self.comments.len() > 0 {
            Some(&self.comments[0])
        } else {
            None
        }
    }

    /// Whether a finding was published as this thread: it names the thread, or one
    /// of its comments.
    pub open spec fn holds_finding(&self, f: Finding) -> bool {
        f.upstream matches Some(up) && (up.thread@ == self.id@ || exists|i: int|
            0 <= i < self.comments@.len() && (#[trigger] self.comments@[i]).id@ == up.comment@)
    }

    /// Whether `finding` is this thread's own root, published from here.
    pub fn is_twin_of(&self, finding: &Finding) -> (r: bool)
        ensures
            r == self.holds_finding(*finding),
    {
        match &finding.upstream {
            Some(up) => {
                if str_eq(&up.thread, &self.id) {
                    return true;
                }
                for i in 0..self.comments.len()
                    invariant
                        finding.upstream == Some(*up),
                        forall|k: int|
                            0 <= k < i ==> (#[trigger] self.comments@[k]).id@ != up.comment@,
                {
                    if str_eq(&self.comments[i].id, &up.comment) {
                        return true;
                    }
                }
                false
            },
            None => false,
        }
    }
}

/// A new review comment to publish: a finding that is not a reply.
#[derive(Debug, Clone, PartialEq, Eq)]
pub struct NewComment {
    pub finding: String,
    /// The path in the request: the new path.
    pub path: String,
    /// The old path when the file was renamed.
    pub old_path: Option<String>,
    /// `"old"` | `"new"`.
    pub side: String,
    /// The last (or only) line.
    pub line: u32,
    /// The first line of a multi-line comment; `None` for one line.
    pub start_line: Option<u32>,
    pub body: String,
}

/// A reply to publish into an existing thread.
#[derive(Debug, Clone, PartialEq, Eq)]
pub struct NewReply {
    pub finding: String,
    pub thread: String,
    /// The thread's root comment id.
    pub root_comment: String,
    pub body: String,
}

/// What one publish sends.
#[derive(Debug, Clone, PartialEq, Eq)]
pub struct Batch {
    pub comments: Vec<NewComment>,
    pub replies: Vec<NewReply>,
}

impl Default for Batch {
    fn default() -> (r: Self)
        ensures
            r.comments@.len() == 0,
            r.replies@.len() == 0,
    {
        Batch { comments: Vec::new(), replies: Vec::new() }
    }
}

impl Batch {
    /// Whether there is nothing to send.
    pub fn is_empty(&self) -> (r: bool)
        ensures
            r == (self.comments@.len() == 0 && self.replies@.len() == 0),
    {
        self.comments.len() == 0 && self.replies.len() == 0
    }

    /// How much there is to send.
    pub fn len(&self) -> (r: usize)
        requires
            self.comments@.len() + self.replies@.len() <= usize::MAX,
        ensures
            r == self.comments@.len() + self.replies@.len(),
    {
        self.comments.len() + self.replies.len()
    }
}

/// A finding a publish left out, and why, in words for the status line.
#[derive(Debug, Clone, PartialEq, Eq)]
pub struct Excluded {
    pub finding: String,
    pub file: String,
    pub lines: String,
    pub reason: String,
}

/// A publish, decided: what goes and what stays.
#[derive(Debug, Clone, PartialEq, Eq)]
pub struct PublishPlan {
    pub batch: Batch,
    pub excluded: Vec<Excluded>,
}

impl Default for PublishPlan {
    fn default() -> (r: Self)
        ensures
            r.batch.comments@.len() == 0,
            r.batch.replies@.len() == 0,
            r.excluded@.len() == 0,
    {
        PublishPlan { batch: Batch::default(), excluded: Vec::new() }
    }
}

/// One comment the forge accepted, keyed back to its finding.
#[derive(Debug, Clone, PartialEq, Eq)]
pub struct Published {
    pub finding: String,
    pub thread: String,
    pub comment: String,
    pub url: Option<String>,
}

/// Why the forge could not be asked.
#[derive(Debug, Clone, PartialEq, Eq)]
pub enum ForgeError {
    Spawn { command: String, msg: String },
    Failed { command: String, code: Option<i32>, stderr: String },
    Timeout { command: String, timeout_millis: u64 },
    Cancelled { command: String },
    Io { command: String, msg: String },
    Parse { command: String, msg: String },
    NoRequest(String),
}

/// The forge, as the domain needs it.
pub trait Forge {
    fn kind(&self) -> ForgeKind;

    /// The request with this id, or the current branch's when `None`.
    fn request(&self, id: Option<&str>) -> Result<Request, ForgeError>;

    /// Every review thread on the request, unplaced.
    fn threads(&self, req: &Request) -> Result<Vec<RemoteThread>, ForgeError>;

    /// Send one batch, against the head of the request.
    fn publish(&self, req: &Request, batch: &Batch) -> Result<Vec<Published>, ForgeError>;

    fn set_resolved(&self, req: &Request, thread: &str, resolved: bool) -> Result<(), ForgeError>;
}

// ---------------------------------------------------------------------------
// Placing

/// The first changed line of a hunk on one side.
pub open spec fn start_of(h: HunkEntry, old: bool) -> u32 {
    at_least_one(
        if old {
            h.old_start
        } else {
            h.new_start
        },
    )
}

/// The number of changed lines of a hunk on one side.
pub open spec fn count_of(h: HunkEntry, old: bool) -> u32 {
    if old {
        h.old_count
    } else {
        h.new_count
    }
}

/// The line behind the changed ones, as far as there are line numbers.
pub open spec fn end_of(h: HunkEntry, old: bool) -> int {
    let e = start_of(h, old) + count_of(h, old);
    if e > u32::MAX {
        u32::MAX as int
    } else {
        e
    }
}

/// Whether a line is one of a hunk's changed lines on one side.
pub open spec fn holds_line(h: HunkEntry, old: bool, line: u32) -> bool {
    start_of(h, old) <= line < end_of(h, old)
}

/// How far a line is from a hunk's changed lines on one side.
pub open spec fn distance(h: HunkEntry, old: bool, line: u32) -> int {
    let s = start_of(h, old);
    let n = if count_of(h, old) >= 1 {
        count_of(h, old)
    } else {
        1
    };
    let last = (if s + n > u32::MAX {
        u32::MAX as int
    } else {
        s + n
    }) - 1;
    if line < s {
        s - line
    } else if line > last {
        line - last
    } else {
        0
    }
}

/// The first hunk of a file that holds a line, from place `from` on.
pub open spec fn first_holder(
    hunks: Seq<HunkEntry>,
    path: Seq<char>,
    old: bool,
    line: u32,
    from: int,
) -> Option<int>
    decreases hunks.len() - from,
{
    if from >= hunks.len() {
        None
    } else if hunks[from].file@ == path && holds_line(hunks[from], old, line) {
        Some(from)
    } else {
        first_holder(hunks, path, old, line, from + 1)
    }
}

/// The hunk of a file nearest to a line among the first `k`; of equally near ones
/// the first.
pub open spec fn nearest(
    hunks: Seq<HunkEntry>,
    path: Seq<char>,
    old: bool,
    line: u32,
    k: nat,
) -> Option<int>
    decreases k,
{
    if k == 0 {
        None
    } else {
        let best = nearest(hunks, path, old, line, (k - 1) as nat);
        if hunks[k - 1].file@ != path {
            best
        } else {
            match best {
                None => Some(k - 1),
                Some(b) => if distance(hunks[k - 1], old, line) < distance(hunks[b], old, line) {
                    Some(k - 1)
                } else {
                    Some(b)
                },
            }
        }
    }
}

/// The hunk that a thread at a line belongs to: one that holds the line, else the
/// nearest in the file.
pub open spec fn line_target(
    hunks: Seq<HunkEntry>,
    path: Seq<char>,
    old: bool,
    line: u32,
) -> Option<int> {
    match first_holder(hunks, path, old, line, 0) {
        Some(i) => Some(i),
        None => nearest(hunks, path, old, line, hunks.len()),
    }
}

/// The text of a line where it is one of a hunk's changed lines.
pub open spec fn text_at(h: HunkEntry, vh: Hunk, old: bool, line: u32) -> Option<Seq<char>> {
    let s = start_of(h, old);
    let lines = side_lines(vh, old);
    if holds_line(h, old, line) && line - s < lines.len() {
        Some(lossy_text(lines[line - s]@))
    } else {
        None
    }
}

/// Where a thread with a line is anchored.
pub open spec fn is_line_anchor(
    a: Anchor,
    t: RemoteThread,
    h: HunkEntry,
    vh: Hunk,
    line: u32,
) -> bool {
    let old = t.side@ == "old"@;
    let start = match t.start_line {
        Some(x) => if x <= line {
            x
        } else {
            line
        },
        None => line,
    };
    let end_text = match text_at(h, vh, old, line) {
        Some(x) => x,
        None => match opt(t.line_text) {
            Some(x) => x,
            None => Seq::empty(),
        },
    };
    &&& a.file@ == t.path@
    &&& a.side@ == t.side@
    &&& a.line == start
    &&& a.end_line == line
    &&& a.offset == (start - start_of(h, old)) as i32
    &&& a.span == line - start
    &&& a.hunk_digest@ == h.digest@
    &&& a.end_line_text@ == end_text
    &&& a.line_text@ == (if start == line {
        end_text
    } else {
        match text_at(h, vh, old, start) {
            Some(x) => x,
            None => Seq::empty(),
        }
    })
}

/// The first hunk of a file that changes a line that is `text`, from place `from`
/// on.
pub open spec fn text_target(
    hunks: Seq<HunkEntry>,
    view: &DiffView,
    path: Seq<char>,
    old: bool,
    text: Seq<u8>,
    from: int,
) -> Option<int>
    decreases hunks.len() - from,
{
    if from >= hunks.len() {
        None
    } else if hunks[from].file@ == path && found_in(view.hunks@[from], old, text) is Some {
        Some(from)
    } else {
        text_target(hunks, view, path, old, text, from + 1)
    }
}

/// Where a thread without a line is anchored: at its text, its own side first.
pub open spec fn is_text_anchor(a: Anchor, t: RemoteThread, h: HunkEntry, vh: Hunk, text: Seq<
    char,
>) -> bool {
    let old = t.side@ == "old"@;
    found_in(vh, old, encode_utf8(text)) matches Some((side_old, p)) && {
        &&& a.file@ == t.path@
        &&& a.side@ == side_name(side_old)
        &&& a.line == start_of(h, side_old) + p
        &&& a.end_line == a.line
        &&& a.offset == p as i32
        &&& a.span == 0
        &&& a.hunk_digest@ == h.digest@
        &&& a.line_text@ == text
        &&& a.end_line_text@ == text
    }
}

/// Where a thread lands: `None` is nowhere.
pub open spec fn is_placed(
    anchor: Option<Anchor>,
    t: RemoteThread,
    doc: &PlanDocument,
    view: &DiffView,
) -> bool {
    let old = t.side@ == "old"@;
    match t.line {
        Some(line) => match line_target(doc.hunks@, t.path@, old, line) {
            Some(i) => anchor matches Some(a) && is_line_anchor(
                a,
                t,
                doc.hunks@[i],
                view.hunks@[i],
                line,
            ),
            None => anchor is None,
        },
        None => match opt(t.line_text) {
            Some(text) => if text.len() == 0 {
                anchor is None
            } else {
                match text_target(doc.hunks@, view, t.path@, old, encode_utf8(text), 0) {
                    Some(i) => anchor matches Some(a) && is_text_anchor(
                        a,
                        t,
                        doc.hunks@[i],
                        view.hunks@[i],
                        text,
                    ),
                    None => anchor is None,
                }
            },
            None => anchor is None,
        },
    }
}

/// Whether every changed line of the view has a line number.
pub open spec fn numbered(doc: &PlanDocument, view: &DiffView) -> bool {
    &&& doc.hunks@.len() <= view.hunks@.len()
    &&& forall|i: int|
        0 <= i < doc.hunks@.len() ==> start_of(#[trigger] doc.hunks@[i], true)
            + view.hunks@[i].removed@.len() <= u32::MAX && start_of(doc.hunks@[i], false)
            + view.hunks@[i].added@.len() <= u32::MAX
}

fn start_line_of(h: &HunkEntry, old: bool) -> (r: u32)
    ensures
        r == start_of(*h, old),
{
    let s = if old {
        h.old_start
    } else {
        h.new_start
    };
    if s >= 1 {
        s
    } else {
        1
    }
}

fn count_lines_of(h: &HunkEntry, old: bool) -> (r: u32)
    ensures
        r == count_of(*h, old),
{
    if old {
        h.old_count
    } else {
        h.new_count
    }
}

fn line_is_held(h: &HunkEntry, old: bool, line: u32) -> (r: bool)
    ensures
        r == holds_line(*h, old, line),
{
    let s = start_line_of(h, old);
    let n = count_lines_of(h, old);
    line >= s && line < s.saturating_add(n)
}

fn measure(h: &HunkEntry, old: bool, line: u32) -> (r: u32)
    ensures
        r == distance(*h, old, line),
{
    let s = start_line_of(h, old);
    let c = count_lines_of(h, old);
    let n: u32 = if c >= 1 {
        c
    } else {
        1
    };
    let last: u32 = s.saturating_add(n) - 1;
    if line < s {
        s - line
    } else if line > last {
        line - last
    } else {
        0
    }
}

fn find_line_target(hunks: &Vec<HunkEntry>, path: &str, old: bool, line: u32) -> (r: Option<usize>)
    ensures
        match r {
            Some(i) => i < hunks@.len() && line_target(hunks@, path@, old, line) == Some(i as int),
            None => line_target(hunks@, path@, old, line) is None,
        },
{
    for i in 0..hunks.len()
        invariant
            first_holder(hunks@, path@, old, line, 0) == first_holder(
                hunks@,
                path@,
                old,
                line,
                i as int,
            ),
    {
        if str_eq(&hunks[i].file, path) && line_is_held(&hunks[i], old, line) {
            return Some(i);
        }
    }
    let mut best: Option<usize> = None;
    for i in 0..hunks.len()
        invariant
            match best {
                Some(b) => b < i && nearest(hunks@, path@, old, line, i as nat) == Some(b as int),
                None => nearest(hunks@, path@, old, line, i as nat) is None,
            },
    {
        if str_eq(&hunks[i].file, path) {
            match best {
                None => {
                    best = Some(i);
                },
                Some(b) => {
                    if measure(&hunks[i], old, line) < measure(&hunks[b], old, line) {
                        best = Some(i);
                    }
                },
            }
        }
    }
    best
}

fn read_line(h: &HunkEntry, vh: &Hunk, old: bool, line: u32) -> (r: Option<String>)
    ensures
        opt(r) == text_at(*h, *vh, old, line),
{
    if !line_is_held(h, old, line) {
        return None;
    }
    let at: usize = (line - start_line_of(h, old)) as usize;
    let lines = if old {
        &vh.removed
    } else {
        &vh.added
    };
    if at < lines.len() {
        Some(lossy(&lines[at]))
    } else {
        None
    }
}

fn find_found(vh: &Hunk, old: bool, text: &[u8]) -> (r: Option<(bool, usize)>)
    ensures
        match r {
            Some((o, p)) => found_in(*vh, old, text@) == Some((o, p as int)) && p < side_lines(
                *vh,
                o,
            ).len(),
            None => found_in(*vh, old, text@) is None,
        },
{
    let own = if old {
        find_line(&vh.removed, text)
    } else {
        find_line(&vh.added, text)
    };
    if let Some(p) = own {
        return Some((old, p));
    }
    let other = if old {
        find_line(&vh.added, text)
    } else {
        find_line(&vh.removed, text)
    };
    match other {
        Some(p) => Some((!old, p)),
        None => None,
    }
}

fn line_anchor(
    doc: &PlanDocument,
    view: &DiffView,
    thread: &RemoteThread,
    line: u32,
) -> (r: Option<Anchor>)
    requires
        numbered(doc, view),
        thread.line == Some(line),
    ensures
        is_placed(r, *thread, doc, view),
{
    let old = str_eq(&thread.side, "old");
    let i = match find_line_target(&doc.hunks, &thread.path, old, line) {
        Some(i) => i,
        None => {
            return None;
        },
    };
    let h = &doc.hunks[i];
    let vh = &view.hunks[i];
    let start: u32 = match thread.start_line {
        Some(x) => if x <= line {
            x
        } else {
            line
        },
        None => line,
    };
    let end_line_text = match read_line(h, vh, old, line) {
        Some(x) => x,
        None => match &thread.line_text {
            Some(x) => x.clone(),
            None => String::new(),
        },
    };
    let line_text = if start == line {
        end_line_text.clone()
    } else {
        match read_line(h, vh, old, start) {
            Some(x) => x,
            None => String::new(),
        }
    };
    let s = start_line_of(h, old);
    Some(
        Anchor {
            file: thread.path.clone(),
            side: thread.side.clone(),
            line: start,
            end_line: line,
            offset: #[verifier::truncate] ((start as i64 - s as i64) as i32),
            span: line - start,
            hunk_digest: h.digest.clone(),
            line_text,
            end_line_text,
        },
    )
}

fn text_anchor(doc: &PlanDocument, view: &DiffView, thread: &RemoteThread) -> (r: Option<Anchor>)
    requires
        numbered(doc, view),
        thread.line is None,
    ensures
        is_placed(r, *thread, doc, view),
{
    let text: &String = match &thread.line_text {
        Some(t) => t,
        None => {
            return None;
        },
    };
    if text.as_str().is_empty() {
        return None;
    }
    let old = str_eq(&thread.side, "old");
    let bytes: &[u8] = text.as_str().as_bytes();
    for i in 0..doc.hunks.len()
        invariant
            numbered(doc, view),
            thread.line is None,
            thread.line_text == Some(*text),
            text@.len() > 0,
            old == (thread.side@ == "old"@),
            bytes@ == encode_utf8(text@),
            text_target(doc.hunks@, view, thread.path@, old, bytes@, 0) == text_target(
                doc.hunks@,
                view,
                thread.path@,
                old,
                bytes@,
                i as int,
            ),
    {
        let h = &doc.hunks[i];
        if str_eq(&h.file, &thread.path) {
            let vh = &view.hunks[i];
            if let Some((side_old, p)) = find_found(vh, old, bytes) {
                let s = start_line_of(h, side_old);
                assert(start_of(doc.hunks@[i as int], true) + view.hunks@[i as int].removed@.len()
                    <= u32::MAX);
                let line: u32 = s + p as u32;
                let side = if side_old {
                    "old".to_owned()
                } else {
                    "new".to_owned()
                };
                return Some(
                    Anchor {
                        file: thread.path.clone(),
                        side,
                        line,
                        end_line: line,
                        offset: #[verifier::truncate] (p as i32),
                        span: 0,
                        hunk_digest: h.digest.clone(),
                        line_text: text.clone(),
                        end_line_text: text.clone(),
                    },
                );
            }
        }
    }
    None
}

/// Where a fetched thread lands in this plan.
///
/// Three tries, cheapest and most certain first. A line the forge gave that a hunk
/// on that side holds is exact. A line no hunk holds is context, and lands on the
/// nearest hunk in the file at a signed offset. A thread with no line is looked
/// for by its recorded text in the file's hunks, on its own side first. Nothing
/// found is no anchor, and the thread is counted, not drawn.
pub fn place(doc: &PlanDocument, view: &DiffView, thread: &mut RemoteThread)
    requires
        numbered(doc, view),
    ensures
        is_placed(final(thread).anchor, *old(thread), doc, view),
        final(thread).id == old(thread).id,
        final(thread).resolved == old(thread).resolved,
        final(thread).outdated == old(thread).outdated,
        final(thread).path == old(thread).path,
        final(thread).side == old(thread).side,
        final(thread).line == old(thread).line,
        final(thread).start_line == old(thread).start_line,
        final(thread).line_text == old(thread).line_text,
        final(thread).comments == old(thread).comments,
{
    let anchor = match thread.line {
        Some(line) => line_anchor(doc, view, &*thread, line),
        None => text_anchor(doc, view, &*thread),
    };
    thread.anchor = anchor;
}

/// A thread at a line that some hunk of its file changes lands on such a hunk, and
/// a thread at any line of a touched file lands somewhere.
pub proof fn law_a_line_of_a_touched_file_is_placed(
    doc: &PlanDocument,
    view: &DiffView,
    t: RemoteThread,
    anchor: Option<Anchor>,
    i: int,
)
    requires
        is_placed(anchor, t, doc, view),
        t.line is Some,
        0 <= i < doc.hunks@.len(),
        doc.hunks@[i].file@ == t.path@,
    ensures
        anchor is Some,
        holds_line(doc.hunks@[i], t.side@ == "old"@, t.line->0) ==> exists|k: int|
            0 <= k < doc.hunks@.len() && (#[trigger] doc.hunks@[k]).file@ == t.path@ && holds_line(
                doc.hunks@[k],
                t.side@ == "old"@,
                t.line->0,
            ) && anchor->0.hunk_digest@ == doc.hunks@[k].digest@,
{
    let old = t.side@ == "old"@;
    let line = t.line->0;
    lemma_holder(doc.hunks@, t.path@, old, line, 0);
    lemma_nearest(doc.hunks@, t.path@, old, line, doc.hunks@.len(), i);
}

proof fn lemma_holder(hunks: Seq<HunkEntry>, path: Seq<char>, old: bool, line: u32, from: int)
    requires
        0 <= from,
    ensures
        match first_holder(hunks, path, old, line, from) {
            Some(k) => from <= k < hunks.len() && hunks[k].file@ == path && holds_line(
                hunks[k],
                old,
                line,
            ),
            None => forall|k: int|
                from <= k < hunks.len() ==> !((#[trigger] hunks[k]).file@ == path && holds_line(
                    hunks[k],
                    old,
                    line,
                )),
        },
    decreases hunks.len() - from,
{
    if from < hunks.len() {
        lemma_holder(hunks, path, old, line, from + 1);
    }
}

proof fn lemma_nearest(
    hunks: Seq<HunkEntry>,
    path: Seq<char>,
    old: bool,
    line: u32,
    k: nat,
    i: int,
)
    requires
        0 <= i < k <= hunks.len(),
        hunks[i].file@ == path,
    ensures
        nearest(hunks, path, old, line, k) is Some,
    decreases k,
{
    if i < k - 1 {
        lemma_nearest(hunks, path, old, line, (k - 1) as nat, i);
    }
}

// ---------------------------------------------------------------------------
// Publishing

/// Lines of context a request diff shows around each hunk, on both forges' web
/// diffs. A comment further out than this is refused by the forge.
pub const REQUEST_CONTEXT: u32 = 3;

/// The last line of an anchor.
pub open spec fn last_line(a: Anchor) -> u32 {
    if a.end_line >= a.line {
        a.end_line
    } else {
        a.line
    }
}

/// Whether both ends of an anchor lie within the context of a hunk on its side.
pub open spec fn near_hunk(a: Anchor, h: HunkEntry) -> bool {
    let old = a.side@ == "old"@;
    let s = start_of(h, old) as int;
    let lo = if s >= REQUEST_CONTEXT {
        s - REQUEST_CONTEXT
    } else {
        0
    };
    let hi = end_of(h, old) - 1 + REQUEST_CONTEXT;
    a.line >= lo && last_line(a) <= hi
}

/// Whether an anchor lies inside the request's diff of its file.
pub open spec fn in_diff(doc: &PlanDocument, a: Anchor) -> bool {
    exists|i: int|
        0 <= i < doc.hunks@.len() && (#[trigger] doc.hunks@[i]).file@ == a.file@ && near_hunk(
            a,
            doc.hunks@[i],
        )
}

/// Whether both ends of `a` sit inside the request's diff of its file.
pub fn in_request_diff(doc: &PlanDocument, a: &Anchor) -> (r: bool)
    ensures
        r == in_diff(doc, *a),
{
    let old = str_eq(&a.side, "old");
    let last: u32 = if a.end_line >= a.line {
        a.end_line
    } else {
        a.line
    };
    for i in 0..doc.hunks.len()
        invariant
            old == (a.side@ == "old"@),
            last == last_line(*a),
            forall|k: int|
                0 <= k < i ==> !((#[trigger] doc.hunks@[k]).file@ == a.file@ && near_hunk(
                    *a,
                    doc.hunks@[k],
                )),
    {
        let h = &doc.hunks[i];
        if str_eq(&h.file, &a.file) {
            let s = start_line_of(h, old);
            let n = count_lines_of(h, old);
            let lo: u32 = s.saturating_sub(REQUEST_CONTEXT);
            let hi: u32 = s.saturating_add(n).saturating_sub(1).saturating_add(REQUEST_CONTEXT);
            if a.line >= lo && last <= hi {
                assert(near_hunk(*a, doc.hunks@[i as int]));
                return true;
            }
        }
    }
    false
}

/// Where a publish sends a finding.
pub enum Route {
    /// Not a candidate: not open, or already published.
    Stays,
    /// A reply into a thread that is still there.
    Reply,
    /// A new comment.
    Comment,
    /// Left out: its thread is gone.
    NoThread,
    /// Left out: its lines are not in the request's diff.
    OutOfDiff,
}

/// The first thread with an id, from place `from` on.
pub open spec fn first_thread(threads: Seq<RemoteThread>, id: Seq<char>, from: int) -> Option<int>
    decreases threads.len() - from,
{
    if from >= threads.len() {
        None
    } else if threads[from].id@ == id {
        Some(from)
    } else {
        first_thread(threads, id, from + 1)
    }
}

pub open spec fn route(doc: &PlanDocument, threads: Seq<RemoteThread>, f: Finding) -> Route {
    if f.status != FindingStatus::Open || f.upstream is Some {
        Route::Stays
    } else {
        match f.reply_to {
            Some(id) => if first_thread(threads, id@, 0) is Some {
                Route::Reply
            } else {
                Route::NoThread
            },
            None => if in_diff(doc, f.anchor) {
                Route::Comment
            } else {
                Route::OutOfDiff
            },
        }
    }
}

/// Whether a finding is sent as a reply, as a comment, or left out.
pub open spec fn goes_to(r: Route, list: int) -> bool {
    match r {
        Route::Stays => false,
        Route::Reply => list == 0,
        Route::Comment => list == 1,
        Route::NoThread => list == 2,
        Route::OutOfDiff => list == 2,
    }
}

/// The places of the first `k` findings that go to one list.
pub open spec fn sent_to(
    doc: &PlanDocument,
    threads: Seq<RemoteThread>,
    findings: Seq<Finding>,
    list: int,
    k: nat,
) -> Seq<int>
    decreases k,
{
    if k == 0 {
        Seq::empty()
    } else {
        let before = sent_to(doc, threads, findings, list, (k - 1) as nat);
        if goes_to(route(doc, threads, findings[k - 1]), list) {
            before.push(k - 1)
        } else {
            before
        }
    }
}

/// What a reply says.
pub open spec fn is_reply(r: NewReply, f: Finding, threads: Seq<RemoteThread>) -> bool {
    f.reply_to matches Some(id) && first_thread(threads, id@, 0) matches Some(i) && {
        &&& r.finding@ == f.id@
        &&& r.thread@ == threads[i].id@
        &&& r.root_comment@ == (if threads[i].comments@.len() > 0 {
            threads[i].comments@[0].id@
        } else {
            Seq::empty()
        })
        &&& r.body@ == f.body@
    }
}

/// The old path of a renamed file.
pub open spec fn old_path_of(files: Seq<FileEntry>, path: Seq<char>, from: int) -> Option<Seq<char>>
    decreases files.len() - from,
{
    if from >= files.len() {
        None
    } else if files[from].path@ == path {
        opt(files[from].old_path)
    } else {
        old_path_of(files, path, from + 1)
    }
}

/// What a new comment says.
pub open spec fn is_comment(c: NewComment, f: Finding, doc: &PlanDocument) -> bool {
    &&& c.finding@ == f.id@
    &&& c.path@ == f.anchor.file@
    &&& opt(c.old_path) == old_path_of(doc.files@, f.anchor.file@, 0)
    &&& c.side@ == f.anchor.side@
    &&& c.line == last_line(f.anchor)
    &&& c.start_line == (if f.anchor.end_line > f.anchor.line {
        Some(f.anchor.line)
    } else {
        None
    })
    &&& c.body@ == f.body@
}

/// What is said of a finding that is left out.
pub open spec fn is_exclusion(
    e: Excluded,
    f: Finding,
    doc: &PlanDocument,
    threads: Seq<RemoteThread>,
) -> bool {
    &&& e.finding@ == f.id@
    &&& e.file@ == f.anchor.file@
    &&& e.lines@ == f.anchor.span_text()
    &&& e.reason@ == (if route(doc, threads, f) is NoThread {
        "its thread is no longer on the request"@
    } else {
        "outside the request's diff (more than 3 lines from a change)"@
    })
}

fn find_thread(threads: &[RemoteThread], id: &str) -> (r: Option<usize>)
    ensures
        match r {
            Some(i) => i < threads@.len() && first_thread(threads@, id@, 0) == Some(i as int),
            None => first_thread(threads@, id@, 0) is None,
        },
{
    for i in 0..threads.len()
        invariant
            first_thread(threads@, id@, 0) == first_thread(threads@, id@, i as int),
    {
        if str_eq(&threads[i].id, id) {
            return Some(i);
        }
    }
    None
}

fn find_old_path(files: &Vec<FileEntry>, path: &str) -> (r: Option<String>)
    ensures
        opt(r) == old_path_of(files@, path@, 0),
{
    for i in 0..files.len()
        invariant
            old_path_of(files@, path@, 0) == old_path_of(files@, path@, i as int),
    {
        if str_eq(&files[i].path, path) {
            return match &files[i].old_path {
                Some(p) => Some(p.clone()),
                None => None,
            };
        }
    }
    None
}

fn excluded(f: &Finding, reason: &str) -> (r: Excluded)
    ensures
        r.finding@ == f.id@,
        r.file@ == f.anchor.file@,
        r.lines@ == f.anchor.span_text(),
        r.reason@ == reason@,
{
    Excluded {
        finding: f.id.clone(),
        file: f.anchor.file.clone(),
        lines: f.anchor.line_span(),
        reason: reason.to_owned(),
    }
}

/// Which open findings a publish may send, and which it must leave.
///
/// A finding already published is not a candidate. A reply needs its thread to
/// still exist and nothing else. A new comment needs its lines inside the
/// request's diff. The old path rides along for a renamed file.
pub fn publish_plan(doc: &PlanDocument, findings: &[Finding], threads: &[RemoteThread]) -> (r:
    PublishPlan)
    ensures
        ({
            let replies = sent_to(doc, threads@, findings@, 0, findings@.len());
            let comments = sent_to(doc, threads@, findings@, 1, findings@.len());
            let left = sent_to(doc, threads@, findings@, 2, findings@.len());
            &&& r.batch.replies@.len() == replies.len()
            &&& forall|k: int|
                0 <= k < replies.len() ==> is_reply(
                    #[trigger] r.batch.replies@[k],
                    findings@[replies[k]],
                    threads@,
                )
            &&& r.batch.comments@.len() == comments.len()
            &&& forall|k: int|
                0 <= k < comments.len() ==> is_comment(
                    #[trigger] r.batch.comments@[k],
                    findings@[comments[k]],
                    doc,
                )
            &&& r.excluded@.len() == left.len()
            &&& forall|k: int|
                0 <= k < left.len() ==> is_exclusion(
                    #[trigger] r.excluded@[k],
                    findings@[left[k]],
                    doc,
                    threads@,
                )
        }),
{
    let mut replies: Vec<NewReply> = Vec::new();
    let mut comments: Vec<NewComment> = Vec::new();
    let mut left: Vec<Excluded> = Vec::new();
    for i in 0..findings.len()
        invariant
            ({
                let rs = sent_to(doc, threads@, findings@, 0, i as nat);
                let cs = sent_to(doc, threads@, findings@, 1, i as nat);
                let es = sent_to(doc, threads@, findings@, 2, i as nat);
                &&& replies@.len() == rs.len()
                &&& forall|k: int|
                    0 <= k < rs.len() ==> is_reply(
                        #[trigger] replies@[k],
                        findings@[rs[k]],
                        threads@,
                    )
                &&& comments@.len() == cs.len()
                &&& forall|k: int|
                    0 <= k < cs.len() ==> is_comment(#[trigger] comments@[k], findings@[cs[k]], doc)
                &&& left@.len() == es.len()
                &&& forall|k: int|
                    0 <= k < es.len() ==> is_exclusion(
                        #[trigger] left@[k],
                        findings@[es[k]],
                        doc,
                        threads@,
                    )
            }),
    {
        let f = &findings[i];
        if f.status == FindingStatus::Open && f.upstream.is_none() {
            if let Some(id) = &f.reply_to {
                match find_thread(threads, id) {
                    Some(t) => {
                        let root_comment = match threads[t].root() {
                            Some(c) => c.id.clone(),
                            None => String::new(),
                        };
                        let reply = NewReply {
                            finding: f.id.clone(),
                            thread: threads[t].id.clone(),
                            root_comment,
                            body: f.body.clone(),
                        };
                        assert(is_reply(reply, *f, threads@));
                        replies.push(reply);
                    },
                    None => {
                        left.push(excluded(f, "its thread is no longer on the request"));
                    },
                }
            } else if !in_request_diff(doc, &f.anchor) {
                left.push(
                    excluded(f, "outside the request's diff (more than 3 lines from a change)"),
                );
            } else {
                let line: u32 = if f.anchor.end_line >= f.anchor.line {
                    f.anchor.end_line
                } else {
                    f.anchor.line
                };
                let start_line: Option<u32> = if f.anchor.end_line > f.anchor.line {
                    Some(f.anchor.line)
                } else {
                    None
                };
                let comment = NewComment {
                    finding: f.id.clone(),
                    path: f.anchor.file.clone(),
                    old_path: find_old_path(&doc.files, &f.anchor.file),
                    side: f.anchor.side.clone(),
                    line,
                    start_line,
                    body: f.body.clone(),
                };
                assert(is_comment(comment, *f, doc));
                comments.push(comment);
            }
        }
    }
    PublishPlan { batch: Batch { comments, replies }, excluded: left }
}

/// A publish decides every open finding that was not published before, and no
/// other one: it goes to exactly one of the three lists.
pub proof fn law_publish_decides_every_candidate(
    doc: &PlanDocument,
    threads: Seq<RemoteThread>,
    findings: Seq<Finding>,
    i: int,
)
    requires
        0 <= i < findings.len(),
    ensures
        ({
            let a = sent_to(doc, threads, findings, 0, findings.len()).contains(i);
            let b = sent_to(doc, threads, findings, 1, findings.len()).contains(i);
            let c = sent_to(doc, threads, findings, 2, findings.len()).contains(i);
            &&& (a || b || c) <==> findings[i].status == FindingStatus::Open && findings[i].upstream
                is None
            &&& !(a && b) && !(a && c) && !(b && c)
        }),
{
    lemma_sent_to(doc, threads, findings, 0, findings.len(), i);
    lemma_sent_to(doc, threads, findings, 1, findings.len(), i);
    lemma_sent_to(doc, threads, findings, 2, findings.len(), i);
}

proof fn lemma_sent_to(
    doc: &PlanDocument,
    threads: Seq<RemoteThread>,
    findings: Seq<Finding>,
    list: int,
    k: nat,
    i: int,
)
    requires
        k <= findings.len(),
        0 <= i < findings.len(),
    ensures
        sent_to(doc, threads, findings, list, k).contains(i) <==> i < k && goes_to(
            route(doc, threads, findings[i]),
            list,
        ),
    decreases k,
{
    if k > 0 {
        lemma_sent_to(doc, threads, findings, list, (k - 1) as nat, i);
        let a = sent_to(doc, threads, findings, list, (k - 1) as nat);
        let b = sent_to(doc, threads, findings, list, k);
        if a.contains(i) {
            let q = choose|q: int| 0 <= q < a.len() && a[q] == i;
            assert(b[q] == i);
        }
        if b.len() > a.len() {
            assert(b[a.len() as int] == k - 1);
        }
        if b.contains(i) && i != k - 1 {
            let q = choose|q: int| 0 <= q < b.len() && b[q] == i;
            assert(a[q] == i);
        }
        if b.contains(i) && i == k - 1 && b.len() == a.len() {
            let q = choose|q: int| 0 <= q < b.len() && b[q] == i;
            assert(a[q] == i);
        }
    }
}

/// Whether the forge still has the head this review was opened on: both forges
/// reject a comment against any other commit.
pub fn head_matches(req: &Request, review_head: &str) -> (r: bool)
    ensures
        r == (req.head@ == review_head@),
{
    str_eq(&req.head, review_head)
}

// ---------------------------------------------------------------------------
// What a thread and a finding meet

/// Where the changed lines of a hunk begin on a side; line numbers start at 1.
pub open spec fn begins(h: HunkEntry, side: Seq<char>) -> int {
    let start = if side == "old"@ {
        h.old_start
    } else {
        h.new_start
    };
    if start == 0 {
        1
    } else {
        start as int
    }
}

/// How many lines a hunk changes on a side.
pub open spec fn covers(h: HunkEntry, side: Seq<char>) -> int {
    if side == "old"@ {
        h.old_count as int
    } else {
        h.new_count as int
    }
}

/// Whether the lines of every hunk have numbers that fit.
pub open spec fn lines_fit(hunks: Seq<HunkEntry>) -> bool {
    forall|i: int|
        0 <= i < hunks.len() ==> (#[trigger] hunks[i]).old_start + hunks[i].old_count < u32::MAX
            && hunks[i].new_start + hunks[i].new_count < u32::MAX
}

/// Whether a hunk lies in a file and changes a line on a side.
pub open spec fn changes(h: HunkEntry, path: Seq<char>, side: Seq<char>, line: int) -> bool {
    h.file@ == path && begins(h, side) <= line < begins(h, side) + covers(h, side)
}

/// How many lines stand between a line and the lines of a hunk on a side. A hunk without
/// lines there counts as the one line where it stands.
pub open spec fn gap(h: HunkEntry, side: Seq<char>, line: int) -> int {
    let first = begins(h, side);
    let last = if covers(h, side) == 0 {
        first
    } else {
        first + covers(h, side) - 1
    };
    if line < first {
        first - line
    } else if line > last {
        line - last
    } else {
        0
    }
}

/// A thread at a line lands on the first hunk of its file that changes this line, on the
/// side of the thread: with the digest of that hunk, with the distance from where its
/// lines begin, and with the text that stands there.
pub proof fn law_a_thread_lands_on_the_hunk_of_its_line(
    doc: &PlanDocument,
    view: &DiffView,
    t: RemoteThread,
    anchor: Option<Anchor>,
    line: u32,
    i: int,
)
    requires
        is_placed(anchor, t, doc, view),
        lines_fit(doc.hunks@),
        t.line == Some(line),
        t.start_line is None,
        0 <= i < doc.hunks@.len(),
        changes(doc.hunks@[i], t.path@, t.side@, line as int),
        forall|j: int|
            0 <= j < i ==> !changes(#[trigger] doc.hunks@[j], t.path@, t.side@, line as int),
        line < 0x7fff_ffff,
    ensures
        anchor is Some,
        anchor->0.hunk_digest@ == doc.hunks@[i].digest@,
        anchor->0.file@ == t.path@,
        anchor->0.side@ == t.side@,
        anchor->0.line == line,
        anchor->0.end_line == line,
        anchor->0.span == 0,
        anchor->0.offset == line - begins(doc.hunks@[i], t.side@),
        t.side@ == "old"@ && anchor->0.offset < view.hunks@[i].removed@.len()
            ==> anchor->0.line_text@ == lossy_text(
            view.hunks@[i].removed@[anchor->0.offset as int]@,
        ),
        t.side@ != "old"@ && anchor->0.offset < view.hunks@[i].added@.len()
            ==> anchor->0.line_text@ == lossy_text(view.hunks@[i].added@[anchor->0.offset as int]@),
{
    let old = t.side@ == "old"@;
    lemma_holder(doc.hunks@, t.path@, old, line, 0);
    let k = first_holder(doc.hunks@, t.path@, old, line, 0);
    assert(holds_line(doc.hunks@[i], old, line));
    assert(k is Some);
    assert(changes(doc.hunks@[k->0], t.path@, t.side@, line as int));
    lemma_first_holder(doc.hunks@, t.path@, old, line, 0, i);
    assert(k->0 == i);
}

/// No hunk in front of the first holder holds the line.
proof fn lemma_first_holder(
    hunks: Seq<HunkEntry>,
    path: Seq<char>,
    old: bool,
    line: u32,
    from: int,
    i: int,
)
    requires
        0 <= from <= i < hunks.len(),
        hunks[i].file@ == path,
        holds_line(hunks[i], old, line),
    ensures
        first_holder(hunks, path, old, line, from) matches Some(k) && k <= i,
    decreases hunks.len() - from,
{
    if from < i {
        lemma_first_holder(hunks, path, old, line, from + 1, i);
    }
}

/// A thread of several lines ends at its line and begins where it says, or at the same
/// line where that stands behind.
pub proof fn law_a_thread_spans_its_lines(
    doc: &PlanDocument,
    view: &DiffView,
    t: RemoteThread,
    anchor: Option<Anchor>,
    line: u32,
    start: u32,
)
    requires
        is_placed(anchor, t, doc, view),
        t.line == Some(line),
        t.start_line == Some(start),
        anchor is Some,
    ensures
        anchor->0.end_line == line,
        anchor->0.line + anchor->0.span == line,
        start <= line ==> anchor->0.line == start,
        start > line ==> anchor->0.line == line,
        anchor->0.file@ == t.path@,
        anchor->0.side@ == t.side@,
{
}

/// A thread at a line that no hunk of its file changes lands on a hunk of the file that
/// no other one is nearer than; where the file has no hunk, it lands nowhere.
pub proof fn law_a_thread_beside_the_hunks_lands_on_the_nearest(
    doc: &PlanDocument,
    view: &DiffView,
    t: RemoteThread,
    anchor: Option<Anchor>,
    line: u32,
)
    requires
        is_placed(anchor, t, doc, view),
        lines_fit(doc.hunks@),
        t.line == Some(line),
        line < u32::MAX,
        forall|j: int|
            0 <= j < doc.hunks@.len() ==> !changes(
                #[trigger] doc.hunks@[j],
                t.path@,
                t.side@,
                line as int,
            ),
    ensures
        anchor is None <==> forall|j: int|
            0 <= j < doc.hunks@.len() ==> (#[trigger] doc.hunks@[j]).file@ != t.path@,
        anchor matches Some(a) ==> exists|k: int|
            0 <= k < doc.hunks@.len() && (#[trigger] doc.hunks@[k]).file@ == t.path@
                && a.hunk_digest@ == doc.hunks@[k].digest@ && forall|j: int|
                0 <= j < doc.hunks@.len() && (#[trigger] doc.hunks@[j]).file@ == t.path@ ==> gap(
                    doc.hunks@[k],
                    t.side@,
                    line as int,
                ) <= gap(doc.hunks@[j], t.side@, line as int),
{
    let old = t.side@ == "old"@;
    let hunks = doc.hunks@;
    lemma_holder(hunks, t.path@, old, line, 0);
    if let Some(k) = first_holder(hunks, t.path@, old, line, 0) {
        assert(changes(hunks[k], t.path@, t.side@, line as int));
    }
    lemma_nearest_is_nearest(hunks, t.path@, old, line, hunks.len());
    assert forall|j: int| 0 <= j < hunks.len() implies distance(#[trigger] hunks[j], old, line)
        == gap(hunks[j], t.side@, line as int) by {
        assert(hunks[j].old_start + hunks[j].old_count < u32::MAX);
    }
}

/// The nearest hunk is one of the file, and no other one is nearer.
proof fn lemma_nearest_is_nearest(
    hunks: Seq<HunkEntry>,
    path: Seq<char>,
    old: bool,
    line: u32,
    k: nat,
)
    requires
        k <= hunks.len(),
    ensures
        match nearest(hunks, path, old, line, k) {
            Some(b) => 0 <= b < k && hunks[b].file@ == path && forall|j: int|
                0 <= j < k && (#[trigger] hunks[j]).file@ == path ==> distance(hunks[b], old, line)
                    <= distance(hunks[j], old, line),
            None => forall|j: int| 0 <= j < k ==> (#[trigger] hunks[j]).file@ != path,
        },
    decreases k,
{
    if k > 0 {
        lemma_nearest_is_nearest(hunks, path, old, line, (k - 1) as nat);
    }
}

/// A thread without a line lands on a line of its file with its text: on its own side of
/// a hunk where the text stands there, else on the other one. It lands nowhere exactly
/// where it has no text or no hunk of the file changes such a line.
pub proof fn law_a_thread_without_a_line_lands_on_its_text(
    doc: &PlanDocument,
    view: &DiffView,
    t: RemoteThread,
    anchor: Option<Anchor>,
    text: Seq<char>,
)
    requires
        is_placed(anchor, t, doc, view),
        t.line is None,
        t.line_text matches Some(s) && s@ == text,
    ensures
        anchor is None <==> text.len() == 0 || forall|j: int|
            0 <= j < doc.hunks@.len() && (#[trigger] doc.hunks@[j]).file@ == t.path@ ==> !has_line(
                view.hunks@[j].added@,
                encode_utf8(text),
            ) && !has_line(view.hunks@[j].removed@, encode_utf8(text)),
        anchor matches Some(a) ==> exists|k: int|
            {
                let vh = view.hunks@[k];
                let at = a.line - begins(doc.hunks@[k], a.side@);
                &&& 0 <= k < doc.hunks@.len()
                &&& (#[trigger] doc.hunks@[k]).file@ == t.path@
                &&& a.hunk_digest@ == doc.hunks@[k].digest@
                &&& a.side@ == "old"@ ==> 0 <= at < vh.removed@.len() && vh.removed@[at]@
                    == encode_utf8(text)
                &&& a.side@ != "old"@ ==> 0 <= at < vh.added@.len() && vh.added@[at]@ == encode_utf8(
                    text,
                )
                &&& t.side@ == "old"@ ==> (a.side@ == "old"@ <==> has_line(
                    vh.removed@,
                    encode_utf8(text),
                ))
                &&& t.side@ != "old"@ ==> (a.side@ != "old"@ <==> has_line(
                    vh.added@,
                    encode_utf8(text),
                ))
            },
        anchor matches Some(a) ==> a.file@ == t.path@ && a.line_text@ == text && a.end_line
            == a.line && a.span == 0,
{
    let old = t.side@ == "old"@;
    let bytes = encode_utf8(text);
    reveal_strlit("old");
    reveal_strlit("new");
    assert("new"@ != "old"@) by {
        assert("new"@[0] != "old"@[0]);
    }
    lemma_text_target(doc.hunks@, view, t.path@, old, bytes, 0);
    assert forall|j: int| 0 <= j < doc.hunks@.len() implies (found_in(
        view.hunks@[j],
        old,
        bytes,
    ) is Some <==> has_line(view.hunks@[j].added@, bytes) || has_line(
        view.hunks@[j].removed@,
        bytes,
    )) by {
        lemma_first_line(view.hunks@[j].added@, bytes, 0);
        lemma_first_line(view.hunks@[j].removed@, bytes, 0);
    }
    if text.len() > 0 {
        if let Some(k) = text_target(doc.hunks@, view, t.path@, old, bytes, 0) {
            let vh = view.hunks@[k];
            lemma_first_line(vh.added@, bytes, 0);
            lemma_first_line(vh.removed@, bytes, 0);
            assert(doc.hunks@[k].file@ == t.path@);
        }
    }
}

/// The hunk found by its text is the first of the file with it.
proof fn lemma_text_target(
    hunks: Seq<HunkEntry>,
    view: &DiffView,
    path: Seq<char>,
    old: bool,
    text: Seq<u8>,
    from: int,
)
    requires
        0 <= from,
    ensures
        match text_target(hunks, view, path, old, text, from) {
            Some(k) => from <= k < hunks.len() && hunks[k].file@ == path && found_in(
                view.hunks@[k],
                old,
                text,
            ) is Some,
            None => forall|k: int|
                from <= k < hunks.len() && (#[trigger] hunks[k]).file@ == path ==> found_in(
                    view.hunks@[k],
                    old,
                    text,
                ) is None,
        },
    decreases hunks.len() - from,
{
    if from < hunks.len() {
        lemma_text_target(hunks, view, path, old, text, from + 1);
    }
}

/// Whether both ends of an anchor lie within three lines of the changed lines of a hunk
/// of its file, on its side.
pub open spec fn within_three_lines(h: HunkEntry, a: Anchor) -> bool {
    &&& h.file@ == a.file@
    &&& a.line >= begins(h, a.side@) - 3
    &&& a.line <= begins(h, a.side@) + covers(h, a.side@) - 1 + 3
    &&& a.end_line <= begins(h, a.side@) + covers(h, a.side@) - 1 + 3
}

/// A request shows three lines around each hunk: an anchor is inside exactly where its
/// first and its last line are that near to one hunk of its file.
pub proof fn law_a_request_shows_three_lines_around_a_hunk(doc: &PlanDocument, a: &Anchor, r: bool)
    requires
        call_ensures(in_request_diff, (doc, a), r),
        lines_fit(doc.hunks@),
    ensures
        r <==> exists|i: int|
            0 <= i < doc.hunks@.len() && within_three_lines(#[trigger] doc.hunks@[i], *a),
{
    assert forall|i: int| 0 <= i < doc.hunks@.len() implies (within_three_lines(
        #[trigger] doc.hunks@[i],
        *a,
    ) <==> doc.hunks@[i].file@ == a.file@ && near_hunk(*a, doc.hunks@[i])) by {
        assert(doc.hunks@[i].old_start + doc.hunks@[i].old_count < u32::MAX);
    }
    if r {
        let i = choose|i: int|
            0 <= i < doc.hunks@.len() && (#[trigger] doc.hunks@[i]).file@ == a.file@ && near_hunk(
                *a,
                doc.hunks@[i],
            );
        assert(within_three_lines(doc.hunks@[i], *a));
    }
}

/// Whether a thread with an id is on the request.
pub open spec fn is_thread(threads: Seq<RemoteThread>, id: Seq<char>) -> bool {
    exists|i: int| 0 <= i < threads.len() && (#[trigger] threads[i]).id@ == id
}

/// The thread found is one with the id.
proof fn lemma_first_thread(threads: Seq<RemoteThread>, id: Seq<char>, from: int)
    requires
        0 <= from,
    ensures
        match first_thread(threads, id, from) {
            Some(k) => from <= k < threads.len() && threads[k].id@ == id && forall|j: int|
                from <= j < k ==> (#[trigger] threads[j]).id@ != id,
            None => forall|j: int| from <= j < threads.len() ==> (#[trigger] threads[j]).id@ != id,
        },
    decreases threads.len() - from,
{
    if from < threads.len() {
        lemma_first_thread(threads, id, from + 1);
    }
}

/// An open finding that was not published goes out: as a reply where it answers a thread
/// that is still there, as a comment at its lines where the request shows them. Every
/// other one of them is left out, and says so.
pub proof fn law_an_open_finding_is_sent_or_left_out(
    doc: &PlanDocument,
    findings: &[Finding],
    threads: &[RemoteThread],
    r: PublishPlan,
    i: int,
)
    requires
        call_ensures(publish_plan, (doc, findings, threads), r),
        lines_fit(doc.hunks@),
        0 <= i < findings@.len(),
        findings@[i].status == FindingStatus::Open,
        findings@[i].upstream is None,
    ensures
        findings@[i].reply_to matches Some(id) && is_thread(threads@, id@) ==> exists|k: int|
            0 <= k < r.batch.replies@.len() && (#[trigger] r.batch.replies@[k]).finding@
                == findings@[i].id@ && r.batch.replies@[k].thread@ == findings@[i].reply_to->0@
                && r.batch.replies@[k].body@ == findings@[i].body@,
        findings@[i].reply_to is None && (exists|h: int|
            0 <= h < doc.hunks@.len() && within_three_lines(
                #[trigger] doc.hunks@[h],
                findings@[i].anchor,
            )) ==> exists|k: int|
            {
                let a = findings@[i].anchor;
                &&& 0 <= k < r.batch.comments@.len()
                &&& (#[trigger] r.batch.comments@[k]).finding@ == findings@[i].id@
                &&& r.batch.comments@[k].path@ == a.file@
                &&& r.batch.comments@[k].side@ == a.side@
                &&& r.batch.comments@[k].body@ == findings@[i].body@
                &&& a.end_line > a.line ==> r.batch.comments@[k].line == a.end_line
                    && r.batch.comments@[k].start_line == Some(a.line)
                &&& a.end_line <= a.line ==> r.batch.comments@[k].line == a.line
                    && r.batch.comments@[k].start_line is None
            },
        (findings@[i].reply_to matches Some(id) && !is_thread(threads@, id@)) || (
        findings@[i].reply_to is None && forall|h: int|
            0 <= h < doc.hunks@.len() ==> !within_three_lines(
                #[trigger] doc.hunks@[h],
                findings@[i].anchor,
            )) ==> exists|k: int|
            0 <= k < r.excluded@.len() && (#[trigger] r.excluded@[k]).finding@ == findings@[i].id@
                && r.excluded@[k].file@ == findings@[i].anchor.file@,
{
    let f = findings@[i];
    let n = findings@.len();
    let (replies, comments, left) = (
        sent_to(doc, threads@, findings@, 0, n),
        sent_to(doc, threads@, findings@, 1, n),
        sent_to(doc, threads@, findings@, 2, n),
    );
    lemma_sent_to(doc, threads@, findings@, 0, n, i);
    lemma_sent_to(doc, threads@, findings@, 1, n, i);
    lemma_sent_to(doc, threads@, findings@, 2, n, i);
    lemma_near(doc, f.anchor);
    if let Some(id) = f.reply_to {
        lemma_first_thread(threads@, id@, 0);
    }
    if replies.contains(i) {
        let k = choose|k: int| 0 <= k < replies.len() && replies[k] == i;
        assert(is_reply(r.batch.replies@[k], f, threads@));
    }
    if comments.contains(i) {
        let k = choose|k: int| 0 <= k < comments.len() && comments[k] == i;
        assert(is_comment(r.batch.comments@[k], f, doc));
    }
    if left.contains(i) {
        let k = choose|k: int| 0 <= k < left.len() && left[k] == i;
        assert(is_exclusion(r.excluded@[k], f, doc, threads@));
    }
}

/// Being in the diff is being within three lines of a hunk.
proof fn lemma_near(doc: &PlanDocument, a: Anchor)
    requires
        lines_fit(doc.hunks@),
    ensures
        in_diff(doc, a) <==> exists|i: int|
            0 <= i < doc.hunks@.len() && within_three_lines(#[trigger] doc.hunks@[i], a),
{
    assert forall|i: int| 0 <= i < doc.hunks@.len() implies (within_three_lines(
        #[trigger] doc.hunks@[i],
        a,
    ) <==> doc.hunks@[i].file@ == a.file@ && near_hunk(a, doc.hunks@[i])) by {
        assert(doc.hunks@[i].old_start + doc.hunks@[i].old_count < u32::MAX);
    }
    if in_diff(doc, a) {
        let i = choose|i: int|
            0 <= i < doc.hunks@.len() && (#[trigger] doc.hunks@[i]).file@ == a.file@ && near_hunk(
                a,
                doc.hunks@[i],
            );
        assert(within_three_lines(doc.hunks@[i], a));
    }
}

/// Nothing is sent that is not open or that the forge has already.
pub proof fn law_nothing_else_is_sent(
    doc: &PlanDocument,
    findings: &[Finding],
    threads: &[RemoteThread],
    r: PublishPlan,
)
    requires
        call_ensures(publish_plan, (doc, findings, threads), r),
    ensures
        forall|k: int|
            0 <= k < r.batch.replies@.len() ==> exists|i: int|
                0 <= i < findings@.len() && (#[trigger] findings@[i]).id@ == (
                #[trigger] r.batch.replies@[k]).finding@ && findings@[i].status
                    == FindingStatus::Open && findings@[i].upstream is None,
        forall|k: int|
            0 <= k < r.batch.comments@.len() ==> exists|i: int|
                0 <= i < findings@.len() && (#[trigger] findings@[i]).id@ == (
                #[trigger] r.batch.comments@[k]).finding@ && findings@[i].status
                    == FindingStatus::Open && findings@[i].upstream is None,
{
    let n = findings@.len();
    let replies = sent_to(doc, threads@, findings@, 0, n);
    let comments = sent_to(doc, threads@, findings@, 1, n);
    lemma_sent_range(doc, threads@, findings@, 0, n);
    lemma_sent_range(doc, threads@, findings@, 1, n);
    assert forall|k: int| 0 <= k < r.batch.replies@.len() implies exists|i: int|
        0 <= i < findings@.len() && (#[trigger] findings@[i]).id@ == (
        #[trigger] r.batch.replies@[k]).finding@ && findings@[i].status == FindingStatus::Open
            && findings@[i].upstream is None by {
        let i = replies[k];
        assert(replies.contains(i));
        lemma_sent_to(doc, threads@, findings@, 0, n, i);
        assert(is_reply(r.batch.replies@[k], findings@[i], threads@));
    }
    assert forall|k: int| 0 <= k < r.batch.comments@.len() implies exists|i: int|
        0 <= i < findings@.len() && (#[trigger] findings@[i]).id@ == (
        #[trigger] r.batch.comments@[k]).finding@ && findings@[i].status == FindingStatus::Open
            && findings@[i].upstream is None by {
        let i = comments[k];
        assert(comments.contains(i));
        lemma_sent_to(doc, threads@, findings@, 1, n, i);
        assert(is_comment(r.batch.comments@[k], findings@[i], doc));
    }
}

/// Every place sent is that of a finding.
proof fn lemma_sent_range(
    doc: &PlanDocument,
    threads: Seq<RemoteThread>,
    findings: Seq<Finding>,
    list: int,
    k: nat,
)
    requires
        k <= findings.len(),
    ensures
        forall|q: int|
            0 <= q < sent_to(doc, threads, findings, list, k).len() ==> 0 <= #[trigger] sent_to(
                doc,
                threads,
                findings,
                list,
                k,
            )[q] < k,
    decreases k,
{
    if k > 0 {
        lemma_sent_range(doc, threads, findings, list, (k - 1) as nat);
        let a = sent_to(doc, threads, findings, list, (k - 1) as nat);
        let b = sent_to(doc, threads, findings, list, k);
        assert forall|q: int| 0 <= q < b.len() implies 0 <= #[trigger] b[q] < k by {
            if q < a.len() {
                assert(a[q] == b[q]);
            }
        }
    }
}

} // verus!
