//! Rows, the cursor, and the picker.
use differential::artefact::sites::{build, Definition, Use};
use differential::artefact::symbols::Site;
use differential::gitio::CommitSummary;
use differential::model::{DiffView, Disposition, FileChange};
use differential::tui::diff::{expand_tabs, side_by_side, ChangeType, DiffLine, Span};
use differential::tui::nav::{
    decide, find_last, find_next, scroll_groups, settle, Action, Focus, Mode, Nav,
};
use differential::tui::layout::{bottom_rect, centered_rect, halves, inner, visible, Area};
use differential::tui::picker::{LineKind, Outcome, PickedSource, Picker};
use differential::tui::rows::{Row, RowKind, Tone};
use differential::tui::{KeyCode, KeyEvent, Modifiers};

fn owned(parts: &[&str]) -> Vec<String> {
    parts.iter().map(|s| s.to_string()).collect()
}

fn key(c: char) -> KeyEvent {
    KeyEvent { code: KeyCode::Char(c), modifiers: Modifiers::Nothing }
}

fn plain(code: KeyCode) -> KeyEvent {
    KeyEvent { code, modifiers: Modifiers::Nothing }
}

#[test]
fn tabs_run_to_the_next_stop() {
    assert_eq!(expand_tabs("a\tb", 4), "a   b");
    assert_eq!(expand_tabs("\t\tx", 4), "        x");
    assert_eq!(expand_tabs("abcd\te", 4), "abcd    e");
}

fn shape(rows: &[DiffLine]) -> Vec<(Option<usize>, Option<usize>, ChangeType)> {
    rows.iter()
        .map(|r| {
            (r.old_line.as_ref().map(|l| l.0), r.new_line.as_ref().map(|l| l.0), r.change_type)
        })
        .collect()
}

#[test]
fn lines_stand_side_by_side() {
    let rows = side_by_side(
        &owned(&["a", "b", "c", "d"]),
        &owned(&["a", "B", "c", "d", "e"]),
        &vec![
            Span { old_start: 2, old_count: 1, new_start: 2, new_count: 1 },
            Span { old_start: 4, old_count: 0, new_start: 5, new_count: 1 },
        ],
    );
    assert_eq!(
        shape(&rows),
        vec![
            (Some(1), Some(1), ChangeType::Equal),
            (Some(2), Some(2), ChangeType::Modified),
            (Some(3), Some(3), ChangeType::Equal),
            (Some(4), Some(4), ChangeType::Equal),
            (None, Some(5), ChangeType::Insert),
        ]
    );
    assert_eq!(rows[1].old_line.as_ref().unwrap().1, "b");
    let rows = side_by_side(
        &owned(&["a", "b"]),
        &owned(&["c"]),
        &vec![Span { old_start: 1, old_count: 2, new_start: 1, new_count: 1 }],
    );
    assert_eq!(
        shape(&rows),
        vec![
            (Some(1), Some(1), ChangeType::Modified),
            (Some(2), None, ChangeType::Delete),
        ]
    );
}

fn rows() -> Vec<Row> {
    let row = |kind: RowKind| Row::full(kind, Tone::Plain, "x".into());
    vec![
        row(RowKind::GroupHeader),
        row(RowKind::HunkHeader(4)),
        row(RowKind::Diff(4)),
        Row::blank(),
        row(RowKind::HunkHeader(5)),
        row(RowKind::Finding("f".into(), 5)),
        row(RowKind::Fold),
    ]
}

#[test]
fn the_cursor_stands_only_where_it_can() {
    let rows = rows();
    assert!(!rows[0].kind.selectable() && rows[1].kind.selectable());
    assert_eq!(find_next(&rows, 0), Some(1));
    assert_eq!(find_last(&rows, 3), Some(2));
    assert_eq!(find_next(&rows, 7), None);
    assert_eq!(find_last(&rows, 7), None);
    let mut nav = Nav::new();
    settle(&mut nav, &rows);
    assert_eq!(nav.cursor, 1);
    assert_eq!(rows[2].kind.hunk(), Some(4));
    assert_eq!(rows[0].kind.hunk(), None);
}

#[test]
fn keys_decide_what_is_done() {
    let rows = rows();
    let mut nav = Nav::new();
    settle(&mut nav, &rows);
    assert_eq!(decide(&mut nav, &rows, 3, key('q')), Action::Quit);
    assert_eq!(decide(&mut nav, &rows, 3, key('y')), Action::Yank);
    assert_eq!(decide(&mut nav, &rows, 3, key('j')), Action::Rebuild);
    assert_eq!(nav.selected_group, 1);
    assert_eq!(decide(&mut nav, &rows, 3, key('k')), Action::Rebuild);
    assert_eq!(nav.selected_group, 0);
    decide(&mut nav, &rows, 3, plain(KeyCode::Tab));
    assert_eq!(nav.focus, Focus::Diff);
    settle(&mut nav, &rows);
    assert_eq!(decide(&mut nav, &rows, 3, key(' ')), Action::ToggleReviewed(4));
    assert_eq!(decide(&mut nav, &rows, 3, key('s')), Action::ToggleSplit);
    assert_eq!(decide(&mut nav, &rows, 3, key('z')), Action::ToggleFold);
    assert_eq!(decide(&mut nav, &rows, 3, key('d')), Action::Stay);
    assert!(nav.pending_d);
    assert_eq!(decide(&mut nav, &rows, 3, key('d')), Action::NoFinding);
    nav.cursor = 5;
    decide(&mut nav, &rows, 3, key('d'));
    assert_eq!(decide(&mut nav, &rows, 3, key('d')), Action::DeleteFinding(5));
    assert_eq!(decide(&mut nav, &rows, 3, key('c')), Action::Stay);
    assert_eq!(nav.mode, Mode::Editing(5));
    assert_eq!(decide(&mut nav, &rows, 3, key('q')), Action::Type);
    assert_eq!(decide(&mut nav, &rows, 3, plain(KeyCode::Esc)), Action::Discard);
    assert_eq!(nav.mode, Mode::Normal);
    decide(&mut nav, &rows, 3, key('?'));
    assert_eq!(nav.mode, Mode::Help);
}

#[test]
fn the_selected_group_stays_in_the_left_pane() {
    let mut nav = Nav::new();
    nav.selected_group = 12;
    scroll_groups(&mut nav, 5);
    assert!(nav.group_scroll <= 12 && 12 < nav.group_scroll + 5);
    nav.selected_group = 2;
    scroll_groups(&mut nav, 5);
    assert_eq!(nav.group_scroll, 2);
    // A pane without a row shows nothing: the scroll stands just past the group.
    nav.selected_group = 12;
    scroll_groups(&mut nav, 0);
    assert_eq!(nav.group_scroll, 13);
}

fn commit(sha: &str) -> CommitSummary {
    CommitSummary {
        sha: sha.into(),
        short: sha[..2].into(),
        subject: "fix".into(),
        author: "A".into(),
    }
}

#[test]
fn the_picker_offers_the_worktree_the_index_and_the_commits() {
    let mut p = Picker::new(vec![commit("aaaa"), commit("bbbb")]);
    assert_eq!(p.handle_key(plain(KeyCode::Enter)), Outcome::Picked(PickedSource::Worktree));
    assert_eq!(p.handle_key(key('k')), Outcome::Stay);
    assert_eq!(p.selected, 0);
    p.handle_key(key('j'));
    assert_eq!(p.handle_key(plain(KeyCode::Enter)), Outcome::Picked(PickedSource::Staged));
    for _ in 0..5 {
        p.handle_key(plain(KeyCode::Down));
    }
    assert_eq!(p.selected, 3, "the selection stays on an item");
    assert_eq!(
        p.handle_key(plain(KeyCode::Enter)),
        Outcome::Picked(PickedSource::Commit { sha: "bbbb".into() })
    );
    assert!(p.item_text(3).contains("bb") && p.item_text(3).contains("fix"));
    assert_eq!(p.handle_key(key('q')), Outcome::Cancelled);
    assert_eq!(p.handle_key(plain(KeyCode::Esc)), Outcome::Cancelled);
}

#[test]
fn symbol_rows_are_numbered_in_location_order() {
    let file = |path: &str| FileChange {
        path: path.as_bytes().to_vec(),
        disposition: Disposition::Modified,
        new_mode: None,
        old_mode: None,
        binary: false,
        submodule: None,
        old_oid: None,
        new_oid: None,
        hunks: vec![],
        rename_similarity: None,
        rename_from: None,
        rename_to: None,
        generated: None,
    };
    let view = DiffView { files: vec![file("a.rs"), file("b.rs")], hunks: vec![] };
    let site = |start: u32, through: u32| Site { start, end: start + 3, through };
    let defs = vec![
        Definition { name: b"Two".to_vec(), file: 1, line: 1, site: site(0, 0), class: 3 },
        Definition { name: b"One".to_vec(), file: 0, line: 9, site: site(4, 12), class: 0 },
    ];
    let uses = vec![
        Use { def: 0, file: 0, line: 2, site: site(1, 0) },
        Use { def: 1, file: 1, line: 5, site: site(1, 0) },
    ];
    let r = build(&view, &defs, &uses);
    let listed: Vec<(&str, &str, &str, u32, u32, &str)> = r
        .definitions
        .iter()
        .map(|d| {
            (d.id.as_str(), d.name.as_str(), d.file.as_str(), d.line, d.through, d.class.as_str())
        })
        .collect();
    assert_eq!(
        listed,
        vec![("s0", "One", "a.rs", 9, 12, "C0"), ("s1", "Two", "b.rs", 1, 1, "C3")]
    );
    let on: Vec<&str> = r.uses.iter().map(|u| u.on.as_str()).collect();
    assert_eq!(on, ["s0", "s1"]);
}

#[test]
fn popups_stay_within_the_screen() {
    let screen = Area { x: 2, y: 1, width: 80, height: 24 };
    assert_eq!(bottom_rect(screen, 8), Area { x: 2, y: 17, width: 80, height: 8 });
    assert_eq!(bottom_rect(screen, 99), screen);
    assert_eq!(centered_rect(screen, 60, 16), Area { x: 12, y: 5, width: 60, height: 16 });
    assert_eq!(centered_rect(screen, 99, 99), screen);
}

#[test]
fn a_pane_shows_what_fits() {
    assert_eq!((inner(10), inner(1)), (8, 0));
    assert_eq!(halves(0), (0, 0));
    assert_eq!(halves(80), (39, 40));
    assert_eq!(visible(3, 4, 10), (3, 7));
    assert_eq!(visible(8, 4, 10), (8, 10));
    assert_eq!(visible(12, 4, 10), (10, 10));
}

#[test]
fn the_picker_parts_commits_from_uncommitted_work() {
    let commit = |n: usize| CommitSummary {
        sha: format!("{n}{n}{n}{n}"),
        short: format!("{n}{n}"),
        subject: format!("subject {n}"),
        author: "Alice".to_string(),
    };
    let mut picker = Picker::new(vec![commit(1), commit(2)]);
    picker.selected = 3;
    let lines = picker.lines();
    let kinds: Vec<LineKind> = lines.iter().map(|l| l.kind).collect();
    let (note, item) = (LineKind::Note, LineKind::Item(false));
    assert_eq!(kinds, [note, item, item, note, item, LineKind::Item(true), note, note]);
    assert_eq!(lines[4].text, "  11  subject 1  (Alice)");
    assert!(lines[3].text.contains("everything since a commit"));
    assert_eq!(lines[7].text, "  j/k move · enter review · q cancel");
    assert_eq!(Picker::new(vec![]).lines().len(), 5);
}
