//! Which review is opened, and where its notes are found again.
use std::cell::RefCell;

use differential::forge::ReviewIdentity;
use differential::model::{DiffView, FileChange, Hunk};
use differential::plan::identity::{
    alias_path, identity_path, plan_hash, review_id_named, review_id_remote, reviews_dir,
};
use differential::review_identity::{
    adopt, decide, extreme, identity_id, resolve, settle, FiledReview, Placed, Reach, Step, Write,
};
use differential::ports::{Ancestry, ReviewCatalogue};
use differential::review_session::{anchor_at, delete, rewrite, summarize};
use differential::review_state::{
    find_line, reanchor, Anchor, Finding, FindingStatus, Lines, ReviewState,
};
use differential::schema::{
    Audit, Disposition, ForgePosition, Generator, HunkEntry, PlanDocument, Remote, Source,
    SourceKind, Stats,
};
use differential::EngineError;

fn range(base: &str, head_spec: &str) -> ReviewIdentity {
    ReviewIdentity::Range { base: base.into(), head_spec: head_spec.into() }
}

fn filed(id: &str, opened_as: ReviewIdentity) -> FiledReview {
    FiledReview { id: id.into(), opened_as: Some(opened_as) }
}

/// A graph of commits: which are reachable from which, and the questions asked.
struct Graph {
    /// Pairs of a revision and its commit.
    names: Vec<(&'static str, &'static str)>,
    /// Lines of history, each from the oldest commit on.
    lines: Vec<Vec<&'static str>>,
    /// A question that is refused.
    refused: Option<&'static str>,
    asked: RefCell<Vec<String>>,
}

fn graph(names: &[(&'static str, &'static str)], lines: &[&[&'static str]]) -> Graph {
    Graph {
        names: names.to_vec(),
        lines: lines.iter().map(|l| l.to_vec()).collect(),
        refused: None,
        asked: RefCell::new(Vec::new()),
    }
}

impl Graph {
    fn ask(&self, question: String) -> Result<(), EngineError> {
        let refused = self.refused == Some(question.as_str());
        self.asked.borrow_mut().push(question);
        if refused {
            return Err(EngineError::GitSpawn { msg: "no git".into() });
        }
        Ok(())
    }
    fn questions(&self) -> Vec<String> {
        std::mem::take(&mut *self.asked.borrow_mut())
    }
}

impl Ancestry for Graph {
    fn commit_of(&self, rev: &str) -> Result<Option<String>, EngineError> {
        self.ask(rev.to_string())?;
        Ok(self.names.iter().find(|(name, _)| *name == rev).map(|(_, c)| c.to_string()))
    }
    fn is_ancestor(&self, a: &str, b: &str) -> Result<bool, EngineError> {
        self.ask(format!("{a}..{b}"))?;
        Ok(self.lines.iter().any(|line| {
            let at = |c: &str| line.iter().position(|x| *x == c);
            matches!((at(a), at(b)), (Some(x), Some(y)) if x <= y)
        }))
    }
}

fn placed(id: &str, commit: &str) -> Placed {
    Placed { id: id.into(), commit: commit.into() }
}

#[test]
fn a_name_and_a_request_are_their_own_identity() {
    let named = ReviewIdentity::Named("auth".into());
    let id = review_id_named("auth");
    assert_eq!(identity_id(&named), id);
    assert_eq!(
        decide(&named, &[]),
        Step::Done { id: id.clone(), write: Write::Identity }
    );
    assert_eq!(
        decide(&named, &[filed(&id, named.clone())]),
        Step::Done { id, write: Write::Nothing }
    );
    let remote = Remote { forge: "github".into(), project: "o/r".into(), id: "7".into() };
    assert_eq!(
        identity_id(&ReviewIdentity::Remote(remote)),
        review_id_remote("github", "o/r", "7")
    );
    assert_ne!(review_id_remote("github", "o/r", "7"), review_id_remote("gitlab", "o/r", "7"));
}

#[test]
fn a_range_follows_its_own_record_then_adoption() {
    let opened = range("abc", "feature");
    let id = identity_id(&opened);
    let bare = FiledReview { id: id.clone(), opened_as: None };
    assert_eq!(
        decide(&opened, &[bare]),
        Step::Done { id: id.clone(), write: Write::Identity }
    );
    assert_eq!(decide(&opened, &[]), Step::Adopt { id: id.clone() });
    let uncommitted = range("abc", "WORKTREE");
    assert_eq!(
        decide(&uncommitted, &[]),
        Step::Done { id: identity_id(&uncommitted), write: Write::Nothing }
    );
    assert_eq!(settle(id.clone(), None), (id.clone(), Write::Identity));
    assert_eq!(
        settle(id, Some("target".into())),
        ("target".to_string(), Write::Alias("target".into()))
    );
}

#[test]
fn the_same_commit_is_adopted_first_then_the_newest_behind_then_the_oldest_ahead() {
    let reviews = [
        filed("r1", range("abc", "one")),
        filed("r2", range("abc", "two")),
        filed("r3", range("abc", "three")),
    ];
    let names = [("one", "h1"), ("two", "h2"), ("three", "h3"), ("new", "h0"), ("again", "h1")];
    let opened = range("abc", "new");
    let git = graph(&names, &[&["h1", "h2", "h0", "h3"]]);
    assert_eq!(adopt(&git, &reviews, &opened).unwrap().as_deref(), Some("r2"));
    assert_eq!(adopt(&git, &reviews, &range("abc", "again")).unwrap().as_deref(), Some("r1"));
    let git = graph(&names, &[&["h0", "h3", "h2", "h1"]]);
    assert_eq!(adopt(&git, &reviews, &opened).unwrap().as_deref(), Some("r3"));
    // Another base, an unknown head, and heads that are gone adopt nothing.
    assert_eq!(adopt(&git, &reviews, &range("def", "new")), Ok(None));
    assert_eq!(adopt(&git, &reviews, &range("abc", "unknown")), Ok(None));
    let git = graph(&[("new", "h0")], &[&["h0", "h3", "h2", "h1"]]);
    assert_eq!(adopt(&git, &reviews, &opened), Ok(None));
    // A named session neither adopts nor is adopted.
    assert_eq!(adopt(&git, &reviews, &ReviewIdentity::Named("auth".into())), Ok(None));
    let named = [filed("r1", ReviewIdentity::Named("auth".into()))];
    assert_eq!(adopt(&git, &named, &opened), Ok(None));
}

#[test]
fn two_branches_off_one_base_never_share_a_review() {
    let reviews = [filed("r1", range("abc", "one")), filed("r2", range("abc", "WORKTREE"))];
    let git = graph(
        &[("one", "h1"), ("WORKTREE", "h0"), ("new", "h0")],
        &[&["h1"], &["h0"]],
    );
    assert_eq!(adopt(&git, &reviews, &range("abc", "new")), Ok(None));
}

#[test]
fn an_ambiguous_end_is_no_end() {
    let set = vec![placed("a", "h1"), placed("b", "h2"), placed("c", "h3")];
    let git = graph(&[], &[&["h1", "h2", "h3"]]);
    assert_eq!(extreme(&git, &set, Reach::Newest).unwrap().as_deref(), Some("c"));
    assert_eq!(extreme(&git, &set, Reach::Oldest).unwrap().as_deref(), Some("a"));
    // The order of the list has no say.
    let shuffled = vec![placed("c", "h3"), placed("a", "h1"), placed("b", "h2")];
    assert_eq!(extreme(&git, &shuffled, Reach::Newest).unwrap().as_deref(), Some("c"));
    assert_eq!(extreme(&git, &shuffled, Reach::Oldest).unwrap().as_deref(), Some("a"));
    let forked = graph(&[], &[&["h1"], &["h2"], &["h3"]]);
    assert_eq!(extreme(&forked, &set, Reach::Newest), Ok(None));
    assert_eq!(extreme(&forked, &vec![], Reach::Newest), Ok(None));
    // A merge of two filed reviews has no one review behind it.
    let reviews = [filed("r1", range("abc", "h1")), filed("r2", range("abc", "h2"))];
    let merge = graph(
        &[("h1", "h1"), ("h2", "h2"), ("new", "h0")],
        &[&["h1", "h0"], &["h2", "h0"]],
    );
    assert_eq!(adopt(&merge, &reviews, &range("abc", "new")), Ok(None));
}

#[test]
fn only_what_decides_is_asked() {
    let reviews = [
        filed("r1", range("abc", "one")),
        filed("r2", range("def", "two")),
        filed("r3", range("abc", "three")),
        filed("r4", range("abc", "four")),
    ];
    let names = [("one", "h1"), ("three", "h0"), ("four", "h4"), ("new", "h0"), ("next", "h9")];
    let mut git = graph(&names, &[&["h1", "h0", "h4", "h9"]]);
    // The same commit ends the questions: the fourth review is not looked at.
    git.refused = Some("four");
    assert_eq!(adopt(&git, &reviews, &range("abc", "new")).unwrap().as_deref(), Some("r3"));
    assert_eq!(git.questions(), ["new", "one", "h1..h0", "three"]);
    // What comes before it is asked, and its refusal is handed on.
    git.refused = Some("h1..h0");
    assert_eq!(
        adopt(&git, &reviews, &range("abc", "new")),
        Err(EngineError::GitSpawn { msg: "no git".into() })
    );
    git.questions();
    // A review behind us is not asked about as ahead; one pass finds the newest, and
    // another proves it.
    git.refused = None;
    assert_eq!(adopt(&git, &reviews, &range("abc", "next")).unwrap().as_deref(), Some("r4"));
    assert_eq!(
        git.questions(),
        [
            "next", "one", "h1..h9", "three", "h0..h9", "four", "h4..h9", "h1..h0", "h0..h4",
            "h1..h4", "h0..h4"
        ]
    );
}

#[test]
fn a_review_is_kept_under_its_id() {
    assert_eq!(reviews_dir("/r/.git"), "/r/.git/differential/reviews");
    assert!(identity_path("/r/.git", "abc").starts_with("/r/.git/differential/reviews/abc/"));
    assert!(alias_path("/r/.git", "abc").contains("abc"));
    assert_eq!(plan_hash("{}").len(), plan_hash("[]").len());
    assert_ne!(plan_hash("{}"), plan_hash("[]"));
}

// ---------------------------------------------------------------------------
// Notes

fn entry(digest: &str, start: u32) -> HunkEntry {
    HunkEntry {
        id: "h0".into(),
        file: "src/a.rs".into(),
        old_start: start,
        old_count: 1,
        new_start: start,
        new_count: 2,
        class: "C0".into(),
        digest: digest.into(),
        nonl_old: false,
        nonl_new: false,
        forge_position: ForgePosition { new_line: Some(start), old_line: Some(start) },
    }
}

fn bytes(start: u32) -> Hunk {
    Hunk {
        file: 0,
        old_start: start,
        old_count: 1,
        new_start: start,
        new_count: 2,
        removed: vec![b"old one".to_vec()],
        added: vec![b"new one".to_vec(), b"new two".to_vec()],
        nonl_old: false,
        nonl_new: false,
    }
}

fn plan(digest: &str, start: u32) -> (PlanDocument, DiffView) {
    let doc = PlanDocument {
        schema_version: 1,
        generator: Generator { tool: "t".into(), version: "0".into(), stages: vec![] },
        source: Source { kind: SourceKind::Range, base: "b".into(), head: "h".into(), remote: None },
        stats: Stats { files: 1, hunks: 1, classes: 0, binary_files: 0, submodules: 0 },
        files: vec![],
        hunks: vec![entry(digest, start)],
        classes: vec![],
        groups: None,
        reading_plan: None,
        audit: Audit {
            applier_exact: "0/0".into(),
            tree_assertion: "pass".into(),
            hunks_carried: 0,
            recount: 0,
            coverage: None,
            classes_missing: None,
            classes_duplicated: None,
            classes_hallucinated: None,
            read_hunks: None,
            skipped_hunks: None,
        },
    };
    let file = FileChange {
        path: b"src/a.rs".to_vec(),
        disposition: differential::model::Disposition::Modified,
        new_mode: None,
        old_mode: None,
        binary: false,
        submodule: None,
        old_oid: None,
        new_oid: None,
        hunks: vec![0],
        rename_similarity: None,
        rename_from: None,
        rename_to: None,
        generated: None,
    };
    assert_eq!(Disposition::M, Disposition::M);
    (doc, DiffView { files: vec![file], hunks: vec![bytes(start)] })
}

fn note(offset: i32, line_text: &str) -> Finding {
    let anchor = Anchor {
        file: "src/a.rs".into(),
        side: "new".into(),
        line: 10,
        end_line: 10,
        offset,
        span: 0,
        hunk_digest: "d".into(),
        line_text: line_text.into(),
        end_line_text: line_text.into(),
    };
    Finding::new(7, "body".into(), "plan one".into(), anchor)
}

#[test]
fn a_note_keeps_its_offset_while_its_hunk_moves() {
    let (doc, view) = plan("d", 40);
    let mut notes = vec![note(1, "new two")];
    reanchor(&mut notes, &doc, &view, "plan two");
    assert_eq!(notes[0].anchor.line, 41);
    assert!(!notes[0].moved);
    assert_eq!(notes[0].plan_hash, "plan two");
    assert_eq!(notes[0].status, FindingStatus::Open);
}

#[test]
fn a_note_follows_its_line_into_a_changed_hunk() {
    let (doc, view) = plan("other digest", 40);
    let mut notes = vec![note(0, "new two"), note(0, "old one"), note(0, "gone")];
    reanchor(&mut notes, &doc, &view, "plan two");
    assert!(notes[0].moved);
    assert_eq!((notes[0].anchor.line, notes[0].anchor.offset), (41, 1));
    assert_eq!(notes[0].anchor.hunk_digest, "other digest");
    assert_eq!((notes[1].anchor.side.as_str(), notes[1].anchor.line), ("old", 40));
    assert_eq!(notes[2].status, FindingStatus::Orphaned);
    assert_eq!(notes[2].plan_hash, "plan one");

    // Found again, an orphan is open again; the same plan leaves a note alone.
    let (doc, view) = plan("d", 3);
    reanchor(&mut notes, &doc, &view, "plan three");
    assert_eq!(notes[2].status, FindingStatus::Open);
    let kept = notes.clone();
    reanchor(&mut notes, &doc, &view, "plan three");
    assert_eq!(notes, kept);
}

#[test]
fn an_anchor_is_what_was_pointed_at_or_the_first_changed_line() {
    let a = anchor_at(&entry("d", 10), &bytes(10), None);
    assert_eq!((a.side.as_str(), a.line, a.end_line, a.offset), ("new", 10, 10, 0));
    assert_eq!(a.line_text, "new one");
    let lines = Lines {
        side: "new".into(),
        start: 11,
        end: 14,
        start_text: "seen".into(),
        end_text: "seen too".into(),
    };
    let a = anchor_at(&entry("d", 10), &bytes(10), Some(lines));
    assert_eq!((a.line, a.end_line, a.offset, a.span), (11, 14, 1, 3));
    assert_eq!(a.line_text, "new two", "a changed line is what the hunk says");
    assert_eq!(a.end_line_text, "seen too", "any other is what was seen");
    assert_eq!(a.line_span(), "11-14");
}

#[test]
fn notes_are_summed_up_rewritten_and_deleted_by_id() {
    let mut notes = vec![note(0, "a"), note(1, "b")];
    notes[1].id = "second".into();
    notes[1].body = "other".into();
    let text = summarize(&notes);
    assert!(text.contains("src/a.rs:10") && text.contains("body"), "{text}");
    assert!(rewrite(&mut notes, "second", "changed".into()));
    assert!(!rewrite(&mut notes, "nobody", "changed".into()));
    assert_eq!(notes[1].body, "changed");
    assert_eq!(notes[0].body, "body");
    assert!(delete(&mut notes, "second"));
    assert!(!delete(&mut notes, "second"));
    assert_eq!(notes.len(), 1);
}

#[test]
fn a_notes_id_follows_its_content() {
    assert_eq!(note(0, "a").id.len(), 12);
    assert_eq!(note(0, "a").id, note(5, "b").id, "the place is no part of it");
    let mut other = note(0, "a");
    other = Finding::new(8, other.body, other.plan_hash, other.anchor);
    assert_ne!(other.id, note(0, "a").id);
}

#[test]
fn marks_are_a_set() {
    let mut s = ReviewState {
        reviewed_hunks: vec![],
        cursor: None,
        split_diff: None,
        wrap: None,
        file_view: false,
    };
    s.mark("a");
    s.mark("a");
    s.mark("b");
    assert!(s.is_marked("a") && s.is_marked("b") && !s.is_marked("c"));
    s.unmark("a");
    assert!(!s.is_marked("a") && s.is_marked("b"));
    assert_eq!(find_line(&vec![b"x".to_vec(), b"y".to_vec()], b"y"), Some(1));
    assert_eq!(find_line(&vec![], b"y"), None);
}

/// The reviews on file, and what was written.
#[derive(Default)]
struct Shelf {
    filed: Vec<FiledReview>,
    aliases: Vec<(String, String)>,
    written: RefCell<Vec<String>>,
    full: bool,
}

impl Shelf {
    fn write(&self, what: String) -> Result<(), EngineError> {
        if self.full {
            return Err(EngineError::Cache { path: "reviews".into(), msg: "disk full".into() });
        }
        self.written.borrow_mut().push(what);
        Ok(())
    }
}

impl ReviewCatalogue for Shelf {
    fn filed_reviews(&self) -> Result<Vec<FiledReview>, EngineError> {
        Ok(self.filed.clone())
    }
    fn alias_of(&self, id: &str) -> Result<Option<String>, EngineError> {
        Ok(self.aliases.iter().find(|(from, _)| from == id).map(|(_, to)| to.clone()))
    }
    fn file_alias(&self, from: &str, to: &str) -> Result<(), EngineError> {
        self.write(format!("{from} -> {to}"))
    }
    fn file_identity(&self, id: &str, _opened_as: &ReviewIdentity) -> Result<(), EngineError> {
        self.write(id.to_string())
    }
}

/// One line of history `c1 c2 c3`, a branch off `c1`, and some names for commits.
struct History {
    asked: RefCell<usize>,
    broken: bool,
}

fn history() -> History {
    History { asked: RefCell::new(0), broken: false }
}

impl Ancestry for History {
    fn commit_of(&self, rev: &str) -> Result<Option<String>, EngineError> {
        *self.asked.borrow_mut() += 1;
        Ok(match rev {
            "HEAD" => Some("c2".to_string()),
            "c1" | "c2" | "c3" | "side" => Some(rev.to_string()),
            _ => None,
        })
    }
    fn is_ancestor(&self, a: &str, b: &str) -> Result<bool, EngineError> {
        if self.broken {
            return Err(EngineError::GitSpawn { msg: "no git".into() });
        }
        Ok(a == b || a == "c1" || (a == "c2" && b == "c3"))
    }
}

#[test]
fn another_spelling_of_one_commit_is_the_same_review() {
    let mut shelf = Shelf::default();
    shelf.filed = vec![filed("r0", range("abc", "c1")), filed("r1", range("abc", "c2"))];
    let opened = range("abc", "HEAD");
    assert_eq!(resolve(&shelf, &history(), &opened).unwrap(), "r1");
    let own = identity_id(&opened);
    assert_eq!(*shelf.written.borrow(), vec![format!("{own} -> r1")]);
}

#[test]
fn a_moved_head_keeps_its_review_and_a_branch_gets_its_own() {
    let mut shelf = Shelf::default();
    shelf.filed = vec![filed("r0", range("abc", "c1")), filed("r1", range("abc", "c2"))];
    assert_eq!(resolve(&shelf, &history(), &range("abc", "c3")).unwrap(), "r1");
    shelf.filed = vec![filed("r1", range("abc", "c2")), filed("w", range("abc", "WORKTREE"))];
    let side = range("abc", "side");
    assert_eq!(resolve(&shelf, &history(), &side).unwrap(), identity_id(&side));
    assert_eq!(shelf.written.borrow().last(), Some(&identity_id(&side)));
}

#[test]
fn a_recorded_join_ends_the_matter() {
    let opened = range("abc", "HEAD");
    let mut shelf = Shelf::default();
    shelf.aliases = vec![(identity_id(&opened), "r7".to_string())];
    let git = history();
    assert_eq!(resolve(&shelf, &git, &opened).unwrap(), "r7");
    assert_eq!(*git.asked.borrow(), 0);
    assert!(shelf.written.borrow().is_empty());
    // A name is never joined.
    let named = ReviewIdentity::Named("auth".into());
    shelf.aliases = vec![(identity_id(&named), "r7".to_string())];
    assert_eq!(resolve(&shelf, &git, &named).unwrap(), identity_id(&named));
}

#[test]
fn a_second_opening_is_the_same_review() {
    let opened = range("abc", "HEAD");
    let mut shelf = Shelf::default();
    shelf.filed = vec![filed("r1", range("abc", "c2")), filed("r2", range("abc", "c3"))];
    let first = resolve(&shelf, &history(), &opened).unwrap();
    assert_eq!(first, "r1");
    // The join was written, and it alone decides, whatever git and the list now say.
    assert_eq!(*shelf.written.borrow(), vec![format!("{} -> r1", identity_id(&opened))]);
    let mut later = Shelf::default();
    later.aliases = vec![(identity_id(&opened), first.clone())];
    later.filed = vec![filed("r2", range("abc", "c3"))];
    let mut git = history();
    git.broken = true;
    assert_eq!(resolve(&later, &git, &opened).unwrap(), first);
    assert_eq!(*git.asked.borrow(), 0);
    assert!(later.written.borrow().is_empty());
}

#[test]
fn refusals_are_handed_on() {
    let mut shelf = Shelf::default();
    shelf.filed = vec![filed("r0", range("abc", "c1"))];
    let mut git = history();
    git.broken = true;
    assert_eq!(
        resolve(&shelf, &git, &range("abc", "c3")),
        Err(EngineError::GitSpawn { msg: "no git".into() })
    );
    shelf.full = true;
    assert!(matches!(
        resolve(&shelf, &history(), &range("def", "gone")),
        Err(EngineError::Cache { .. })
    ));
}
