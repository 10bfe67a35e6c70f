//! Keys in, state out: the screen's model over a plan that was made from what git
//! printed. No terminal, no agent, no repository.
use std::cell::RefCell;
use std::rc::Rc;

use differential::artefact::graph;
use differential::document::{assemble, SourceInfo};
use differential::grouping::infos::class_infos;
use differential::grouping::parse::{RawGroup, RawGroups};
use differential::grouping::run;
use differential::invariants::{fidelity_report, tree_report, Contents};
use differential::lang::LanguageRegistry;
use differential::model::DiffView;
use differential::ordering;
use differential::plan::enumerate::{build_view, classify, Enumeration};
use differential::plan::identity::class_content_key;
use differential::ports::ReviewStore;
use differential::review_session::ReviewSession;
use differential::review_state::{Finding, FindingStatus, ReviewState};
use differential::schema::{PlanDocument, SourceKind};
use differential::tui::app::{App, Effect};
use differential::tui::diff::{side_by_side, Span};
use differential::tui::nav::{Focus, Mode};
use differential::tui::rows::{build_file_rows, DiffMode, RowFactory, RowKind, RowsContext};
use differential::tui::{KeyCode, KeyEvent, Modifiers};
use differential::EngineError;

/// What a store was given, shared with the test.
#[derive(Default)]
struct Kept {
    plan: Option<(String, String)>,
    state: Option<ReviewState>,
    findings: Vec<Finding>,
    state_saves: usize,
    finding_saves: usize,
    failing: bool,
}

struct MemoryStore(Rc<RefCell<Kept>>);

impl MemoryStore {
    fn refused(&self) -> Result<(), EngineError> {
        if self.0.borrow().failing {
            Err(EngineError::Cache { path: "state.json".into(), msg: "disk full".into() })
        } else {
            Ok(())
        }
    }
}

impl ReviewStore for MemoryStore {
    fn save_plan(&self, hash: &str, json: &str) -> Result<(), EngineError> {
        self.refused()?;
        self.0.borrow_mut().plan = Some((hash.to_string(), json.to_string()));
        Ok(())
    }
    fn load_state(&self) -> Result<ReviewState, EngineError> {
        Ok(self.0.borrow().state.clone().unwrap_or(ReviewState {
            reviewed_hunks: vec![],
            cursor: None,
            split_diff: None,
            wrap: None,
            file_view: false,
        }))
    }
    fn save_state(&self, state: &ReviewState) -> Result<(), EngineError> {
        self.refused()?;
        let mut kept = self.0.borrow_mut();
        kept.state = Some(state.clone());
        kept.state_saves += 1;
        Ok(())
    }
    fn load_findings(&self) -> Result<Vec<Finding>, EngineError> {
        Ok(self.0.borrow().findings.clone())
    }
    fn save_findings(&self, findings: &Vec<Finding>) -> Result<(), EngineError> {
        self.refused()?;
        let mut kept = self.0.borrow_mut();
        kept.findings = findings.clone();
        kept.finding_saves += 1;
        Ok(())
    }
}

const MAIN_BEFORE: &str = "fn main() { run_slowly() }\n";
const MAIN_AFTER: &str = "fn main() { run_with_retries(3) }\n";
const HELPER_BEFORE: &str = "use old_helper_name;\nother content here\n";
const HELPER_AFTER: &str = "use new_helper_name;\nother content here\n";

fn path_of(n: usize) -> String {
    format!("src/{}.txt", ["a", "b", "c", "main"][n])
}

/// One behavioural change and a 3-file repeated edit (skim material), as git prints
/// them.
fn git_output() -> (Vec<u8>, Vec<u8>) {
    let mut raw = String::new();
    let mut patch = String::new();
    for n in 0..4 {
        let path = path_of(n);
        let (old, new) = ("a".repeat(40), "b".repeat(40));
        raw.push_str(&format!(":100644 100644 {old} {new} M\0{path}\0"));
        let (before, after) =
            if n == 3 { (MAIN_BEFORE, MAIN_AFTER) } else { (HELPER_BEFORE, HELPER_AFTER) };
        patch.push_str(&format!(
            "diff --git a/{path} b/{path}\nindex {old}..{new} 100644\n--- a/{path}\n+++ b/{path}\n\
             @@ -1 +1 @@\n-{}\n+{}\n",
            before.lines().next().unwrap(),
            after.lines().next().unwrap()
        ));
    }
    (raw.into_bytes(), patch.into_bytes())
}

fn planned() -> (PlanDocument, DiffView) {
    let (raw, patch) = git_output();
    let mut view = build_view(&Enumeration {
        raw_records: &raw,
        canonical_patch: &patch,
        rename_records: b"",
    })
    .unwrap();
    let marks = vec![None; view.files.len()];
    let part = classify(&mut view, &marks, &LanguageRegistry::builtin());
    assert_eq!(part.classes, vec![vec![0, 1, 2], vec![3]]);

    let contents: Vec<Contents> = (0..4)
        .map(|n| {
            let (b, h) =
                if n == 3 { (MAIN_BEFORE, MAIN_AFTER) } else { (HELPER_BEFORE, HELPER_AFTER) };
            Contents { base: Some(b.as_bytes().to_vec()), head: Some(h.as_bytes().to_vec()) }
        })
        .collect();
    let mut report = fidelity_report(&view, &contents);
    assert!(report.fidelity_ok(), "{}", report.to_string());
    report.tree = Some(tree_report(
        view.hunks.len(),
        "tree".into(),
        Some(("tree".into(), patch.clone())),
    ));
    assert!(report.all_ok());

    let parsed = view.files.iter().map(|_| None).collect();
    let edges = graph::build(&view, &part, &parsed);
    let source =
        SourceInfo { kind: SourceKind::Range, base: "base".into(), head: "head".into() };
    let doc = assemble(&view, &part, &edges, &source, &report, "0").unwrap().unwrap();

    // The largest class becomes the skim sweep; the rest are close work.
    let answer = |label: &str, class: &str, effort: &str| RawGroup {
        label: label.into(),
        description: "d".into(),
        classes: vec![class.into()],
        effort: effort.into(),
        reason: "r".into(),
    };
    let raw_groups = RawGroups {
        groups: vec![answer("Skim sweep", "C0", "skim"), answer("Close work", "C1", "close")],
    };
    let infos = class_infos(&doc);
    let mut doc = run(doc, &infos, raw_groups);
    let none = view.files.iter().map(|_| differential::lang::FileSymbols {
        defines: vec![],
        references: vec![],
    });
    let symbols = none.collect();
    ordering::apply(&mut doc, &view, &symbols);
    (doc, view)
}

fn make_app() -> (Rc<RefCell<Kept>>, App<MemoryStore>) {
    let kept = Rc::new(RefCell::new(Kept::default()));
    let app = open_app(&kept);
    (kept, app)
}

fn open_app(kept: &Rc<RefCell<Kept>>) -> App<MemoryStore> {
    let (doc, view) = planned();
    let mut factory = RowFactory::new();
    for n in 0..4 {
        let (before, after) =
            if n == 3 { (MAIN_BEFORE, MAIN_AFTER) } else { (HELPER_BEFORE, HELPER_AFTER) };
        let side = |s: &str| s.lines().map(str::to_string).collect::<Vec<String>>();
        let span = Span { old_start: 1, old_count: 1, new_start: 1, new_count: 1 };
        factory.keep(path_of(n), side_by_side(&side(before), &side(after), &vec![span]));
    }
    let session = ReviewSession::open(MemoryStore(Rc::clone(kept)), doc, "{}", view).unwrap();
    App::new(session, factory, false)
}

fn key(c: char) -> KeyEvent {
    KeyEvent { code: KeyCode::Char(c), modifiers: Modifiers::Nothing }
}

fn ctrl(c: char) -> KeyEvent {
    KeyEvent { code: KeyCode::Char(c), modifiers: Modifiers::Control }
}

fn plain(code: KeyCode) -> KeyEvent {
    KeyEvent { code, modifiers: Modifiers::Nothing }
}

#[test]
fn navigation_group_switch_and_focus() {
    let (_kept, mut app) = make_app();
    assert_eq!(app.groups.len(), 2);
    assert_eq!(app.nav.focus, Focus::Groups);

    // j in the groups pane switches group and rebuilds rows.
    let before_rows: Vec<_> = app.rows.iter().map(|r| r.kind.clone()).collect();
    app.handle_key(key('j'), "", 0);
    assert_eq!(app.nav.selected_group, 1);
    let after_rows: Vec<_> = app.rows.iter().map(|r| r.kind.clone()).collect();
    assert_ne!(before_rows, after_rows);

    // Skim group shows a fold row; z opens it.
    assert!(app.rows.iter().any(|r| r.kind == RowKind::Fold));
    app.handle_key(key('z'), "", 0);
    assert!(!app.rows.iter().any(|r| r.kind == RowKind::Fold));

    // Tab moves focus to the diff pane; j moves the cursor over selectables.
    app.handle_key(plain(KeyCode::Tab), "", 0);
    assert_eq!(app.nav.focus, Focus::Diff);
    let c0 = app.nav.cursor;
    app.handle_key(key('j'), "", 0);
    assert!(app.nav.cursor > c0);
    assert!(app.rows[app.nav.cursor].kind.selectable());
}

#[test]
fn space_toggles_class_reviewed_and_saves() {
    let (kept, mut app) = make_app();
    app.handle_key(plain(KeyCode::Tab), "", 0);
    let saves = kept.borrow().state_saves;
    app.handle_key(key(' '), "", 0);
    assert!(kept.borrow().state_saves > saves, "the mark is saved");
    assert_eq!(app.session.reviewed_count(), 1);
    assert_eq!(kept.borrow().state.as_ref().unwrap().reviewed_hunks.len(), 1);
    // Toggling again clears it.
    app.handle_key(key(' '), "", 0);
    assert_eq!(app.session.reviewed_count(), 0);
    assert!(kept.borrow().state.as_ref().unwrap().reviewed_hunks.is_empty());
}

#[test]
fn finding_lifecycle_add_yank_delete() {
    let (kept, mut app) = make_app();
    let saves = kept.borrow().finding_saves;
    app.handle_key(plain(KeyCode::Tab), "", 0);

    // c opens the editor on the current hunk.
    app.handle_key(key('c'), "", 0);
    assert!(matches!(app.nav.mode, Mode::Editing(_)));
    let mut draft = String::new();
    for ch in "off by one".chars() {
        assert_eq!(app.handle_key(key(ch), &draft, 0), vec![Effect::Type]);
        draft.push(ch);
    }
    app.handle_key(ctrl('s'), &draft, 77);
    assert_eq!(kept.borrow().finding_saves, saves + 1);
    assert_eq!(app.session.findings().len(), 1);
    assert_eq!(app.session.findings()[0].body, "off by one");
    assert_eq!(app.session.findings()[0].created, 77);
    assert!(!app.session.findings()[0].anchor.hunk_digest.is_empty());
    assert!(matches!(app.nav.mode, Mode::Normal));

    // The finding renders as a row and the summary contains it.
    assert!(app.rows.iter().any(|r| matches!(r.kind, RowKind::Finding(_, _))));
    let effects = app.handle_key(key('y'), "", 0);
    match effects.first() {
        Some(Effect::Yank(text)) => {
            assert!(text.contains("off by one"));
            assert!(text.contains(":"));
        }
        other => panic!("expected yank, got {other:?}"),
    }

    // dd on the finding row deletes it.
    let finding_row =
        app.rows.iter().position(|r| matches!(r.kind, RowKind::Finding(_, _))).unwrap();
    app.nav.cursor = finding_row;
    app.handle_key(key('d'), "", 0);
    assert_eq!(kept.borrow().finding_saves, saves + 1, "one d waits for the other");
    app.handle_key(key('d'), "", 0);
    assert_eq!(kept.borrow().finding_saves, saves + 2);
    assert!(app.session.findings().is_empty());
    assert!(kept.borrow().findings.is_empty());
}

#[test]
fn esc_discards_editor_and_empty_findings_are_dropped() {
    let (kept, mut app) = make_app();
    let saves = kept.borrow().finding_saves;
    app.handle_key(plain(KeyCode::Tab), "", 0);
    app.handle_key(key('c'), "", 0);
    app.handle_key(plain(KeyCode::Esc), "half a thought", 0);
    assert!(matches!(app.nav.mode, Mode::Normal));
    assert!(app.session.findings().is_empty());
    app.handle_key(key('c'), "", 0);
    let effects = app.handle_key(ctrl('s'), "  \n", 0); // empty body
    assert!(effects.is_empty());
    assert!(app.session.findings().is_empty());
    assert_eq!(kept.borrow().finding_saves, saves);
    assert_eq!(app.status, "empty finding discarded");
}

#[test]
fn quit_saves_state() {
    let (kept, mut app) = make_app();
    let saves = kept.borrow().state_saves;
    let effects = app.handle_key(key('q'), "", 0);
    assert_eq!(effects, vec![Effect::Quit]);
    assert_eq!(kept.borrow().state_saves, saves + 1);
}

#[test]
fn the_panes_name_the_groups_the_plan_and_the_marks() {
    let (_kept, mut app) = make_app();
    assert_eq!(app.group_line(&app.groups[0]), " F  1f +1   -1    Close work");
    assert_eq!(app.group_line(&app.groups[1]), " S  3f +3   -3    Skim sweep");
    assert_eq!(app.groups_title(), " reading plan ");
    assert!(app.status_line().starts_with(" 0/2 classes reviewed · 0 finding(s) · "));
    app.handle_key(plain(KeyCode::Tab), "", 0);
    app.handle_key(key(' '), "", 0);
    assert_eq!(app.group_line(&app.groups[0]), "✓F  1f +1   -1    Close work");
    assert!(app.status_line().starts_with(" 1/2 classes reviewed · "));
}

#[test]
fn a_review_resumes_where_it_was_left() {
    let (kept, mut app) = make_app();
    app.handle_key(key('j'), "", 0);
    app.handle_key(plain(KeyCode::Tab), "", 0);
    app.handle_key(key('j'), "", 0);
    let (group, cursor) = (app.nav.selected_group, app.nav.cursor);
    app.handle_key(key('q'), "", 0);

    let again = open_app(&kept);
    assert_eq!(again.nav.selected_group, group);
    assert_eq!(again.nav.cursor, cursor);
    assert_eq!(again.nav.focus, Focus::Groups);
}

#[test]
fn a_refused_save_is_told_in_the_status_line() {
    let (kept, mut app) = make_app();
    app.handle_key(plain(KeyCode::Tab), "", 0);
    kept.borrow_mut().failing = true;
    app.handle_key(key(' '), "", 0);
    assert!(app.status.starts_with("save failed: "), "{}", app.status);
    assert!(app.status.contains("disk full"), "{}", app.status);
}

#[test]
fn s_swaps_the_layout_and_keeps_the_choice() {
    let (kept, mut app) = make_app();
    app.handle_key(key('s'), "", 0);
    assert_eq!(app.status, "split diff");
    assert_eq!(kept.borrow().state.as_ref().unwrap().split_diff, Some(true));
    app.handle_key(key('s'), "", 0);
    assert_eq!(app.status, "unified diff");
    assert_eq!(kept.borrow().state.as_ref().unwrap().split_diff, Some(false));
}

#[test]
fn dd_off_a_finding_says_so() {
    let (_kept, mut app) = make_app();
    app.handle_key(plain(KeyCode::Tab), "", 0);
    app.handle_key(key('d'), "", 0);
    app.handle_key(key('d'), "", 0);
    assert_eq!(app.status, "dd works on a finding line");
}

#[test]
fn a_session_keeps_its_plan_and_reanchors_its_findings() {
    let (kept, mut app) = make_app();
    let (hash, json) = kept.borrow().plan.clone().unwrap();
    assert_eq!(json, "{}");
    assert_eq!(app.session.plan_hash(), hash);

    let added = app.session.add_finding(0, None, "stays".into(), 5).unwrap().clone();
    assert_eq!(added.body, "stays");
    assert_eq!(app.session.findings().last(), Some(&added));
    let digest = app.session.hunk_key(0).to_string();
    assert_eq!(kept.borrow().findings[0].anchor.hunk_digest, digest);
    // A note on content that is gone is orphaned when the review opens again.
    kept.borrow_mut().findings[0].anchor.hunk_digest = "gone".into();
    kept.borrow_mut().findings[0].anchor.line_text = "no such line".into();
    kept.borrow_mut().findings[0].plan_hash = "another plan".into();
    let again = open_app(&kept);
    assert_eq!(again.session.findings()[0].status, FindingStatus::Orphaned);
    assert_eq!(again.groups_title(), " reading plan · ⚠ 1 orphaned finding(s) ");
}

#[test]
fn marks_are_set_and_cleared_together() {
    let (kept, mut app) = make_app();
    let keys = app.groups[1].hunk_keys.clone();
    app.session.set_reviewed(&keys, true).unwrap();
    assert_eq!(app.session.reviewed_count(), 3);
    assert_eq!(app.session.reviewed_hunks(), vec![0, 1, 2]);
    app.session.set_reviewed(&keys, false).unwrap();
    assert_eq!(app.session.reviewed_count(), 0);
    assert!(kept.borrow().state.as_ref().unwrap().reviewed_hunks.is_empty());
}

#[test]
fn toggling_a_mark_twice_restores_it() {
    let (_kept, mut app) = make_app();
    assert!(app.session.toggle_reviewed(3).unwrap());
    assert!(!app.session.toggle_reviewed(3).unwrap());
    assert_eq!(app.session.reviewed_count(), 0);
}

#[test]
fn deleting_a_finding_removes_that_one_alone() {
    let (_kept, mut app) = make_app();
    app.session.add_finding(0, None, "first".into(), 1).unwrap();
    app.session.add_finding(3, None, "second".into(), 2).unwrap();
    let id = app.session.findings()[0].id.clone();
    assert!(app.session.delete_finding(&id).unwrap());
    assert_eq!(app.session.findings().len(), 1);
    assert_eq!(app.session.findings()[0].body, "second");
    assert!(!app.session.delete_finding(&id).unwrap());
    let id = app.session.findings()[0].id.clone();
    assert!(app.session.edit_finding(&id, "edited".into()).unwrap());
    assert_eq!(app.session.findings()[0].body, "edited");
    assert_eq!(app.session.clear_findings().unwrap(), 1);
    assert!(app.session.findings().is_empty());
}

#[test]
fn layout_choices_are_kept() {
    let (kept, mut app) = make_app();
    assert_eq!((app.session.wrap(), app.session.file_view()), (None, false));
    app.session.set_wrap(true).unwrap();
    app.session.set_file_view(true).unwrap();
    assert_eq!((app.session.wrap(), app.session.file_view()), (Some(true), true));
    let state = kept.borrow().state.clone().unwrap();
    assert_eq!((state.wrap, state.file_view), (Some(true), true));
}

#[test]
fn the_projection_finds_groups_and_marked_hunks() {
    let (_kept, app) = make_app();
    let plan = app.session.plan();
    let last = &app.groups[1];
    assert_eq!(plan.group_by_id(&last.id).unwrap().label, last.label);
    assert!(plan.group_by_id("nothing").is_none());
    let content = class_content_key(&vec![app.session.doc().hunks[3].digest.clone()]);
    let found = plan.hunks_with_keys(|k: &str| k == content);
    assert_eq!(found.len(), 1);
    assert_eq!(found[0].index(), 3);
}

#[test]
fn a_file_is_shown_with_all_its_hunks() {
    let (_kept, app) = make_app();
    let ctx = RowsContext {
        doc: app.session.doc(),
        findings: app.session.findings(),
        reviewed: &vec![],
        mode: DiffMode::Unified,
        hunk_labels: None,
    };
    let rows = build_file_rows(&app.factory, &ctx, "src/main.txt", &vec![3]);
    assert_eq!(rows[0].kind, RowKind::FileHeader("src/main.txt".into()));
    assert_eq!(rows[1].kind, RowKind::HunkHeader(3));
    assert_eq!(rows[2].kind, RowKind::Diff(3));
    let none = build_file_rows(&app.factory, &ctx, "logo.png", &vec![]);
    assert_eq!(none[0].kind, RowKind::FileHeader("logo.png".into()));
    assert_eq!(none[1].kind, RowKind::Blank);
}
