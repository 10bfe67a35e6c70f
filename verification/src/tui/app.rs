//! The model behind the screen: what is shown, and what each key does to it and to the
//! review.
//!
//! All review state (marks, findings, the resume cursor) lives in the session; this
//! model holds presentation state only.
use vstd::prelude::*;

use super::nav::{
    at, decide, follow_cursor, hunk_under, settle, settled, step, Action, Nav,
};
use super::rows::{
    build_group_rows, group_rows, one, row_views, DiffMode, GroupContext, KindView, Row,
    RowFactory, RowKind, RowView, RowsContext, Tone,
};
use super::KeyEvent;
use crate::plan::ids::{
    group_numbers, group_ok, groups_of, law_fault_iff_invalid, numbers, PlanIndex,
};
use crate::plan::view::{counts_of, is_group_view, touched, GroupView};
use crate::ports::ReviewStore;
use crate::review_session::{
    has_id, is_finding, summary, toggled, without, ReviewSession,
};
use crate::review_state::{Finding, FindingStatus, ReviewState};
use crate::schema::{Effort, Group, PlanDocument};
use crate::seqs::{lemma_push_contains, texts};
use crate::text::{
    contains_text, decimal, push_decimal, push_str, str_eq, trim, trimmed_text,
};
use crate::EngineError;

verus! {

/// What the loop has to do.
#[derive(Debug, Clone, PartialEq, Eq)]
pub enum Effect {
    Quit,
    Yank(String),
    /// Hand the key to the editor.
    Type,
}

/// A group as the left pane shows it.
#[derive(Debug, Clone, PartialEq, Eq)]
pub struct GroupInfo {
    pub id: String,
    pub label: String,
    pub effort: Effort,
    /// The reviewed-mark keys of its hunks.
    pub hunk_keys: Vec<String>,
    pub n_classes: usize,
    pub n_hunks: usize,
    /// Distinct paths touched (a rename counts as two). A change without text counts
    /// 0.
    pub n_files: usize,
    /// Added and removed lines over the group's hunks.
    pub adds: u64,
    pub dels: u64,
}

/// Whether an entry of the left pane is the one of a group.
pub open spec fn is_info(info: GroupInfo, doc: &PlanDocument, rank: int) -> bool {
    let g = groups_of(doc)[rank];
    let hs = group_numbers(doc, texts(g.class_ids@));
    &&& info.id@ == g.id@
    &&& info.label@ == g.label@
    &&& info.effort == g.effort
    &&& texts(info.hunk_keys@) == Seq::new(hs.len(), |k: int| doc.hunks@[hs[k]].digest@)
    &&& info.n_classes == g.class_ids@.len()
    &&& info.n_hunks == hs.len()
    &&& info.n_files == touched(doc, hs).to_set().len()
    &&& info.adds == counts_of(doc, hs).adds
    &&& info.dels == counts_of(doc, hs).dels
}

pub struct App<S: ReviewStore> {
    pub session: ReviewSession<S>,
    pub factory: RowFactory,
    pub groups: Vec<GroupInfo>,
    pub nav: Nav,
    pub rows: Vec<Row>,
    /// Ids of the groups whose fold is open.
    pub folds_open: Vec<String>,
    pub status: String,
    /// The layout of a reader who has not chosen one.
    pub split_by_default: bool,
}

/// What a failed save is told as.
pub open spec fn failed(e: EngineError) -> Seq<char> {
    "save failed: "@ + e.text()
}

fn failed_string(e: &EngineError) -> (r: String)
    ensures
        r@ == failed(*e),
{
    let mut out = "save failed: ".to_owned();
    push_str(&mut out, &e.message());
    out
}

/// The first row of a hunk, from place `from` on.
pub open spec fn row_of_hunk(rows: Seq<Row>, h: usize, from: int) -> Option<int>
    decreases rows.len() - from,
{
    if from >= rows.len() {
        None
    } else if rows[from].kind.hunk_of() == Some(h) {
        Some(from)
    } else {
        row_of_hunk(rows, h, from + 1)
    }
}

fn find_row_of_hunk(rows: &Vec<Row>, h: usize) -> (r: Option<usize>)
    ensures
        match r {
            Some(i) => row_of_hunk(rows@, h, 0) == Some(i as int),
            None => row_of_hunk(rows@, h, 0) is None,
        },
{
    for i in 0..rows.len()
        invariant
            row_of_hunk(rows@, h, 0) == row_of_hunk(rows@, h, i as int),
    {
        if let Some(k) = rows[i].kind.hunk() {
            if k == h {
                return Some(i);
            }
        }
    }
    None
}

impl<S: ReviewStore> App<S> {
    /// The layout of the diff pane.
    pub open spec fn splits(&self) -> bool {
        match self.session.progress().split_diff {
            Some(b) => b,
            None => self.split_by_default,
        }
    }

    /// The group that is shown.
    pub open spec fn shown_group(&self) -> Group {
        let gs = groups_of(&self.session.document());
        if self.nav.selected_group < gs.len() {
            gs[self.nav.selected_group as int]
        } else {
            gs[gs.len() - 1]
        }
    }

    /// Whether rows are those of the group that is shown, given the reviewed hunks.
    pub open spec fn shows(&self, reviewed: Vec<usize>, rows: Seq<RowView>) -> bool {
        let core = RowsContext {
            doc: &self.session.document(),
            findings: &self.session.notes(),
            reviewed: &reviewed,
            mode: if self.splits() {
                DiffMode::Split
            } else {
                DiffMode::Unified
            },
            hunk_labels: None,
        };
        let g = self.shown_group();
        let ctx = GroupContext {
            core,
            group: &g,
            fold_open: texts(self.folds_open@).contains(g.id@),
        };
        rows == group_rows(&ctx, &self.factory)
    }

    /// Whether a list holds exactly the hunks marked reviewed.
    pub open spec fn lists_reviewed(&self, reviewed: Vec<usize>) -> bool {
        forall|h: usize| #[trigger]
            reviewed@.contains(h) <==> self.session.hunk_marked(h as int)
    }

    /// Whether rows are what the right pane has to show.
    pub open spec fn is_pane(&self, rows: Seq<RowView>) -> bool {
        match self.session.document().groups {
            None => rows == Seq::<RowView>::empty(),
            Some(gs) => if gs@.len() == 0 {
                rows == seq![one(KindView::Blank, Tone::Plain, "nothing to review — empty diff"@)]
            } else {
                exists|reviewed: Vec<usize>| #[trigger]
                    self.shows(reviewed, rows) && self.lists_reviewed(reviewed)
            },
        }
    }

    /// Whether a model differs from another in its place alone.
    pub open spec fn moved_to(self, nav: Nav) -> Self {
        App { nav, ..self }
    }

    /// Whether a model says something and is otherwise the same.
    pub open spec fn says(&self, new: &Self, text: Seq<char>) -> bool {
        new == (App { status: new.status, ..*self }) && new.status@ == text
    }

    /// Whether a model shows its rows anew.
    pub open spec fn rebuilt(&self, new: &Self) -> bool {
        &&& *new == (App { rows: new.rows, nav: new.nav, ..*self })
        &&& self.is_pane(row_views(new.rows@))
        &&& new.nav == (if groups_of(&self.session.document()).len() == 0 {
            self.nav
        } else {
            settled(self.nav, new.rows@)
        })
    }

    /// Build the rows of the right pane anew.
    pub fn rebuild_rows(&mut self)
        requires
            old(self).session.wf(),
        ensures
            old(self).rebuilt(final(self)),
    {
        let ghost was = *self;
        let doc = self.session.doc();
        let none: Vec<Row> = Vec::new();
        assert(row_views(none@) =~= Seq::<RowView>::empty());
        let groups = match &doc.groups {
            None => {
                self.rows = none;
                return;
            },
            Some(gs) => gs,
        };
        if groups.len() == 0 {
            let mut rows = none;
            rows.push(
                Row::full(
                    RowKind::Blank,
                    Tone::Plain,
                    "nothing to review — empty diff".to_owned(),
                ),
            );
            assert(row_views(rows@) =~= seq![
                one(KindView::Blank, Tone::Plain, "nothing to review — empty diff"@),
            ]);
            self.rows = rows;
            return;
        }
        proof {
            law_fault_iff_invalid(doc);
        }
        let index = match PlanIndex::build(doc) {
            Ok(index) => index,
            Err(_) => {
                assert(false);
                return;
            },
        };
        let place: usize = if self.nav.selected_group < groups.len() {
            self.nav.selected_group
        } else {
            groups.len() - 1
        };
        let group = &groups[place];
        assert(group_ok(doc, groups_of(doc)[place as int]));
        let reviewed = self.session.reviewed_hunks();
        let fold_open = contains_text(&self.folds_open, &group.id);
        let split = match self.session.split_diff() {
            Some(b) => b,
            None => self.split_by_default,
        };
        let mode = if split {
            DiffMode::Split
        } else {
            DiffMode::Unified
        };
        let ctx = GroupContext {
            core: RowsContext {
                doc,
                findings: self.session.findings(),
                reviewed: &reviewed,
                mode,
                hunk_labels: None,
            },
            group,
            fold_open,
        };
        let rows = build_group_rows(&index, &self.factory, &ctx);
        assert(was.shows(reviewed, row_views(rows@)));
        assert(was.lists_reviewed(reviewed));
        self.rows = rows;
        settle(&mut self.nav, &self.rows);
    }
}

// ---------------------------------------------------------------------------
// What keys ask for

impl<S: ReviewStore> App<S> {
    /// The id of the selected group; empty where there is none.
    pub open spec fn selected_id(&self) -> Seq<char> {
        if self.nav.selected_group < self.groups@.len() {
            self.groups@[self.nav.selected_group as int].id@
        } else {
            Seq::empty()
        }
    }

    /// Whether only the session and the status differ, the session being of the same
    /// review.
    pub open spec fn session_changed(&self, new: &Self) -> bool {
        &&& *new == (App { session: new.session, status: new.status, ..*self })
        &&& new.session.same_review(&self.session)
    }

    /// What is shown after a save: a failure is told, a success says nothing new.
    pub open spec fn told(&self, new: &Self, answer: Result<(), EngineError>) -> bool {
        match answer {
            Ok(_) => new.status == self.status,
            Err(e) => new.status@ == failed(e),
        }
    }

    /// Whether the resume position was kept: the selected group and the cursor.
    pub open spec fn cursor_kept(&self, new: &Self) -> bool {
        &&& self.session_changed(new)
        &&& new.session.notes() == self.session.notes()
        &&& new.session.progress() == (ReviewState {
            cursor: new.session.progress().cursor,
            ..self.session.progress()
        })
        &&& new.session.progress().cursor matches Some(c) && c.0@ == self.selected_id() && c.1
            == self.nav.cursor
        &&& exists|answer: Result<(), EngineError>| #[trigger]
            new.session.state_saved(answer) && self.told(new, answer)
    }

    /// Keep the resume position. A failure is told in the status line.
    fn save_cursor(&mut self)
        ensures
            old(self).cursor_kept(final(self)),
    {
        let id = if self.nav.selected_group < self.groups.len() {
            self.groups[self.nav.selected_group].id.clone()
        } else {
            String::new()
        };
        assert(id@ =~= self.selected_id());
        let answer = self.session.save_cursor(id, self.nav.cursor);
        assert(self.session.state_saved(answer));
        if let Err(e) = &answer {
            self.status = failed_string(e);
        }
    }

    /// Whether the fold of the selected group changed.
    pub open spec fn fold_toggled(&self, new: &Self) -> bool {
        &&& *new == (App { folds_open: new.folds_open, ..*self })
        &&& texts(new.folds_open@).to_set() == toggled(
            texts(self.folds_open@).to_set(),
            self.selected_id(),
        )
    }

    fn toggle_fold(&mut self)
        requires
            old(self).nav.selected_group < old(self).groups@.len(),
        ensures
            old(self).fold_toggled(final(self)),
    {
        let id = self.groups[self.nav.selected_group].id.clone();
        let ghost was = texts(self.folds_open@);
        if contains_text(&self.folds_open, &id) {
            let mut kept: Vec<String> = Vec::new();
            let n = self.folds_open.len();
            for i in 0..n
                invariant
                    n == self.folds_open@.len(),
                    was == texts(self.folds_open@),
                    *self == *old(self),
                    forall|x: Seq<char>| #[trigger]
                        texts(kept@).contains(x) <==> x != id@ && was.take(i as int).contains(x),
            {
                let ghost had = texts(kept@);
                let ghost part = was.take(i as int);
                if !str_eq(&self.folds_open[i], &id) {
                    kept.push(self.folds_open[i].clone());
                    assert(texts(kept@) =~= had.push(was[i as int]));
                }
                proof {
                    assert(was.take(i + 1) =~= part.push(was[i as int]));
                    assert forall|x: Seq<char>| #[trigger]
                        texts(kept@).contains(x) <==> x != id@ && was.take(i + 1).contains(x) by {
                        lemma_push_contains(had, was[i as int], x);
                        lemma_push_contains(part, was[i as int], x);
                    }
                }
            }
            assert(was.take(was.len() as int) =~= was);
            assert(texts(kept@).to_set() =~= was.to_set().remove(id@));
            self.folds_open = kept;
        } else {
            self.folds_open.push(id);
            proof {
                let now = texts(self.folds_open@);
                assert(now =~= was.push(id@));
                assert forall|x: Seq<char>| #[trigger]
                    now.to_set().contains(x) <==> was.to_set().insert(id@).contains(x) by {
                    lemma_push_contains(was, id@, x);
                }
                assert(now.to_set() =~= was.to_set().insert(id@));
            }
        }
    }

    /// Whether the layout was chosen anew, and what the store answered.
    pub open spec fn split_set(&self, new: &Self, answer: Result<(), EngineError>) -> bool {
        &&& *new == (App { session: new.session, ..*self })
        &&& new.session.same_review(&self.session)
        &&& new.session.notes() == self.session.notes()
        &&& new.session.progress() == (ReviewState {
            split_diff: Some(!self.splits()),
            ..self.session.progress()
        })
        &&& new.session.state_saved(answer)
    }

    /// The place after the layout changed: on the hunk that was under the cursor.
    pub open spec fn on_hunk(&self, hunk: Option<usize>) -> Nav {
        match hunk {
            None => self.nav,
            Some(h) => match row_of_hunk(self.rows@, h, 0) {
                Some(i) => at(self.nav, i),
                None => self.nav,
            },
        }
    }

    /// Whether the layout was toggled: on a failed save nothing else happens; else
    /// the rows are built anew and the reader keeps the hunk.
    pub open spec fn split_toggled(&self, new: &Self) -> bool {
        exists|mid: &Self, answer: Result<(), EngineError>|
            {
                &&& #[trigger] self.split_set(mid, answer)
                &&& match answer {
                    Err(e) => mid.says(new, failed(e)),
                    Ok(_) => exists|built: &Self|
                        {
                            &&& #[trigger] mid.rebuilt(built)
                            &&& built.moved_to(
                                built.on_hunk(hunk_under(self.nav, self.rows@)),
                            ).says(
                                new,
                                if self.splits() {
                                    "unified diff"@
                                } else {
                                    "split diff"@
                                },
                            )
                        },
                }
            }
    }

    /// Toggle unified and split. Row counts differ between the two, so the cursor is
    /// put back on the hunk.
    fn toggle_split(&mut self)
        requires
            old(self).session.wf(),
        ensures
            old(self).split_toggled(final(self)),
            final(self).session.wf(),
    {
        let hunk = super::nav::current_hunk(&self.nav, &self.rows);
        let on = !(match self.session.split_diff() {
            Some(b) => b,
            None => self.split_by_default,
        });
        let answer = self.session.set_split_diff(on);
        let ghost mid = *self;
        assert(old(self).split_set(&mid, answer));
        if let Err(e) = &answer {
            self.status = failed_string(e);
            return;
        }
        self.rebuild_rows();
        let ghost built = *self;
        assert(mid.rebuilt(&built));
        if let Some(h) = hunk {
            if let Some(i) = find_row_of_hunk(&self.rows, h) {
                self.nav.cursor = i;
                follow_cursor(&mut self.nav);
            }
        }
        self.status = if on {
            "split diff".to_owned()
        } else {
            "unified diff".to_owned()
        };
    }

    /// Whether the mark of a hunk was toggled, and what the store answered.
    pub open spec fn mark_toggled(
        &self,
        new: &Self,
        h: usize,
        answer: Result<(), EngineError>,
    ) -> bool {
        &&& *new == (App { session: new.session, ..*self })
        &&& new.session.same_review(&self.session)
        &&& new.session.notes() == self.session.notes()
        &&& new.session.progress().same_but_marks(&self.session.progress())
        &&& new.session.progress().marks() == toggled(
            self.session.progress().marks(),
            self.session.document().hunks@[h as int].digest@,
        )
        &&& new.session.state_saved(answer)
    }

    /// Whether a hunk's mark was toggled by a key: on a failed save nothing else
    /// happens; else the position is kept and the rows are built anew.
    pub open spec fn reviewed_toggled(&self, new: &Self, h: usize) -> bool {
        exists|mid: &Self, answer: Result<(), EngineError>|
            {
                &&& #[trigger] self.mark_toggled(mid, h, answer)
                &&& match answer {
                    Err(e) => mid.says(new, failed(e)),
                    Ok(_) => exists|kept: &Self| #[trigger]
                        mid.cursor_kept(kept) && kept.rebuilt(new),
                }
            }
    }

    fn toggle_reviewed(&mut self, h: usize)
        requires
            old(self).session.wf(),
            h < old(self).session.document().hunks@.len(),
        ensures
            old(self).reviewed_toggled(final(self), h),
            final(self).session.wf(),
    {
        let result = self.session.toggle_reviewed(h);
        let ghost mid = *self;
        proof {
            let answer = choose|answer: Result<(), EngineError>|
                {
                    &&& #[trigger] self.session.state_saved(answer)
                    &&& match answer {
                        Ok(_) => result is Ok,
                        Err(e) => result == Err::<bool, EngineError>(e),
                    }
                };
            assert(old(self).mark_toggled(&mid, h, answer));
        }
        if let Err(e) = &result {
            self.status = failed_string(e);
            return;
        }
        self.save_cursor();
        let ghost kept = *self;
        assert(mid.cursor_kept(&kept));
        self.rebuild_rows();
    }

    /// Whether a finding was added, and what the store answered.
    pub open spec fn finding_added(
        &self,
        new: &Self,
        h: usize,
        body: Seq<char>,
        created: u64,
        answer: Result<(), EngineError>,
    ) -> bool {
        &&& self.session_changed(new)
        &&& new.session.progress() == self.session.progress()
        &&& new.session.notes()@.len() == self.session.notes()@.len() + 1
        &&& new.session.notes()@.drop_last() == self.session.notes()@
        &&& is_finding(
            new.session.notes()@.last(),
            self.session.document().hunks@[h as int],
            self.session.bytes().hunks@[h as int],
            None,
            body,
            created,
            self.session.hash(),
        )
        &&& new.session.notes_saved(answer)
        &&& match answer {
            Ok(_) => new.status@ == "finding saved"@,
            Err(e) => new.status@ == failed(e),
        }
    }

    fn add_finding(&mut self, h: usize, body: String, created: u64)
        requires
            old(self).session.wf(),
            h < old(self).session.document().hunks@.len(),
            h < old(self).session.bytes().hunks@.len(),
        ensures
            exists|mid: &Self, answer: Result<(), EngineError>|
                #[trigger] old(self).finding_added(mid, h, body@, created, answer) && mid.rebuilt(
                    final(self),
                ),
            final(self).session.wf(),
    {
        let answer = match self.session.add_finding(h, None, body, created) {
            Ok(_) => Ok(()),
            Err(e) => Err(e),
        };
        self.status = match &answer {
            Ok(_) => "finding saved".to_owned(),
            Err(e) => failed_string(e),
        };
        let ghost mid = *self;
        assert(old(self).finding_added(&mid, h, body@, created, answer));
        self.rebuild_rows();
    }

    /// Whether the findings with an id were deleted, and what is told of it.
    pub open spec fn finding_deleted(&self, new: &Self, id: Seq<char>) -> bool {
        &&& self.session_changed(new)
        &&& new.session.progress() == self.session.progress()
        &&& new.session.notes()@ == without(
            self.session.notes()@,
            id,
            self.session.notes()@.len(),
        )
        &&& if has_id(self.session.notes()@, id) {
            exists|answer: Result<(), EngineError>|
                {
                    &&& #[trigger] new.session.notes_saved(answer)
                    &&& match answer {
                        Ok(_) => new.status@ == "finding deleted"@,
                        Err(e) => new.status@ == failed(e),
                    }
                }
        } else {
            new.status@ == "finding deleted"@
        }
    }

    fn delete_finding(&mut self, id: &str)
        requires
            old(self).session.wf(),
        ensures
            exists|mid: &Self| #[trigger]
                old(self).finding_deleted(mid, id@) && mid.rebuilt(final(self)),
            final(self).session.wf(),
    {
        let result = self.session.delete_finding(id);
        self.status = match &result {
            Ok(_) => "finding deleted".to_owned(),
            Err(e) => failed_string(e),
        };
        let ghost mid = *self;
        proof {
            if has_id(old(self).session.notes()@, id@) {
                let answer = choose|answer: Result<(), EngineError>|
                    {
                        &&& #[trigger] mid.session.notes_saved(answer)
                        &&& match answer {
                            Ok(_) => result == Ok::<bool, EngineError>(true),
                            Err(e) => result == Err::<bool, EngineError>(e),
                        }
                    };
                assert(mid.session.notes_saved(answer));
            }
            assert(old(self).finding_deleted(&mid, id@));
        }
        self.rebuild_rows();
    }

    /// The id of the finding on a row; empty on another row.
    pub open spec fn finding_on(&self, row: usize) -> Seq<char> {
        match self.rows@[row as int].kind {
            RowKind::Finding(id, _) => id@,
            _ => Seq::empty(),
        }
    }

    /// What keeping a written finding comes to: an empty one is dropped, and a hunk
    /// outside the review is left alone.
    pub open spec fn kept_finding(&self, new: &Self, h: usize, draft: Seq<char>, now: u64) -> bool {
        let body = trim(draft);
        if body.len() == 0 {
            self.says(new, "empty finding discarded"@)
        } else if h < self.session.document().hunks@.len() && h
            < self.session.bytes().hunks@.len() {
            exists|mid: &Self, answer: Result<(), EngineError>|
                #[trigger] self.finding_added(mid, h, body, now, answer) && mid.rebuilt(new)
        } else {
            *new == *self
        }
    }

    /// What an action comes to, from the model with its new place.
    pub open spec fn performed(
        &self,
        new: &Self,
        action: Action,
        draft: Seq<char>,
        now: u64,
        effects: Seq<Effect>,
    ) -> bool {
        match action {
            Action::Stay => *new == *self && effects.len() == 0,
            Action::Type => *new == *self && effects == seq![Effect::Type],
            Action::Yank => *new == *self && effects.len() == 1 && (effects[0] matches Effect::Yank(
                t,
            ) && t@ == summary(self.session.notes()@)),
            Action::Quit => self.cursor_kept(new) && effects == seq![Effect::Quit],
            Action::Rebuild => self.rebuilt(new) && effects.len() == 0,
            Action::ToggleFold => {
                &&& effects.len() == 0
                &&& exists|mid: &Self| #[trigger] self.fold_toggled(mid) && mid.rebuilt(new)
            },
            Action::ToggleSplit => self.split_toggled(new) && effects.len() == 0,
            Action::ToggleReviewed(h) => {
                &&& effects.len() == 0
                &&& if h < self.session.document().hunks@.len() {
                    self.reviewed_toggled(new, h)
                } else {
                    *new == *self
                }
            },
            Action::DeleteFinding(row) => {
                &&& effects.len() == 0
                &&& exists|mid: &Self| #[trigger]
                    self.finding_deleted(mid, self.finding_on(row)) && mid.rebuilt(new)
            },
            Action::NoFinding => self.says(new, "dd works on a finding line"@) && effects.len()
                == 0,
            Action::NoHunk => self.says(new, "move onto a hunk first"@) && effects.len() == 0,
            Action::Discard => self.says(new, "finding discarded"@) && effects.len() == 0,
            Action::Save(h) => self.kept_finding(new, h, draft, now) && effects.len() == 0,
        }
    }

    /// One key. `draft` is what has been written so far, `now` the time. Returns what
    /// the loop has to do.
    pub fn handle_key(&mut self, key: KeyEvent, draft: &str, now: u64) -> (r: Vec<Effect>)
        requires
            old(self).session.wf(),
        ensures
            final(self).session.wf(),
            ({
                let (nav, action) = step(
                    old(self).nav,
                    old(self).rows@,
                    old(self).groups@.len(),
                    key,
                );
                old(self).moved_to(nav).performed(final(self), action, draft@, now, r@)
            }),
    {
        let action = decide(&mut self.nav, &self.rows, self.groups.len(), key);
        let ghost was = *self;
        let mut effects: Vec<Effect> = Vec::new();
        match action {
            Action::Stay => {},
            Action::Type => {
                effects.push(Effect::Type);
                assert(effects@ =~= seq![Effect::Type]);
            },
            Action::Yank => {
                effects.push(Effect::Yank(self.session.findings_summary()));
            },
            Action::Quit => {
                self.save_cursor();
                effects.push(Effect::Quit);
                assert(effects@ =~= seq![Effect::Quit]);
            },
            Action::Rebuild => self.rebuild_rows(),
            Action::ToggleFold => {
                self.toggle_fold();
                let ghost mid = *self;
                assert(was.fold_toggled(&mid));
                self.rebuild_rows();
            },
            Action::ToggleSplit => self.toggle_split(),
            Action::ToggleReviewed(h) => {
                if h < self.session.doc().hunks.len() {
                    self.toggle_reviewed(h);
                }
            },
            Action::DeleteFinding(row) => {
                let id = match &self.rows[row].kind {
                    RowKind::Finding(id, _) => id.clone(),
                    _ => String::new(),
                };
                assert(id@ =~= was.finding_on(row));
                self.delete_finding(&id);
            },
            Action::NoFinding => {
                self.status = "dd works on a finding line".to_owned();
            },
            Action::NoHunk => {
                self.status = "move onto a hunk first".to_owned();
            },
            Action::Discard => {
                self.status = "finding discarded".to_owned();
            },
            Action::Save(h) => {
                let body = trimmed_text(draft);
                proof {
                    reveal_strlit("");
                    assert(body@.len() == 0 ==> body@ =~= ""@);
                }
                if str_eq(&body, "") {
                    self.status = "empty finding discarded".to_owned();
                } else if self.session.has_hunk(h) {
                    self.add_finding(h, body, now);
                }
            },
        }
        effects
    }
}

// ---------------------------------------------------------------------------
// Opening and showing

fn group_info(doc: &PlanDocument, v: &GroupView, Ghost(rank): Ghost<int>) -> (r: GroupInfo)
    requires
        is_group_view(*v, doc, rank),
    ensures
        is_info(r, doc, rank),
{
    let ghost hs = group_numbers(doc, texts(groups_of(doc)[rank].class_ids@));
    let mut keys: Vec<String> = Vec::new();
    for i in 0..v.hunks.len()
        invariant
            hs == numbers(v.hunks@),
            forall|i: int|
                0 <= i < v.hunks@.len() ==> 0 <= (#[trigger] v.hunks@[i]).number()
                    < doc.hunks@.len(),
            keys@.len() == i,
            forall|k: int| 0 <= k < i ==> (#[trigger] keys@[k])@ == doc.hunks@[hs[k]].digest@,
    {
        let h = v.hunks[i];
        assert(hs[i as int] == h.number());
        keys.push(doc.hunks[h.index()].digest.clone());
    }
    assert(texts(keys@) =~= Seq::new(hs.len(), |k: int| doc.hunks@[hs[k]].digest@));
    assert(texts(v.class_ids@).len() == texts(groups_of(doc)[rank].class_ids@).len());
    GroupInfo {
        id: v.id.clone(),
        label: v.label.clone(),
        effort: v.effort,
        hunk_keys: keys,
        n_classes: v.class_ids.len(),
        n_hunks: v.hunks.len(),
        n_files: v.n_files,
        adds: v.counts.adds,
        dels: v.counts.dels,
    }
}

/// The first group with an id, from place `from` on.
pub open spec fn group_place(groups: Seq<GroupInfo>, id: Seq<char>, from: int) -> Option<int>
    decreases groups.len() - from,
{
    if from >= groups.len() {
        None
    } else if groups[from].id@ == id {
        Some(from)
    } else {
        group_place(groups, id, from + 1)
    }
}

fn find_group_place(groups: &Vec<GroupInfo>, id: &str) -> (r: Option<usize>)
    ensures
        match r {
            Some(i) => group_place(groups@, id@, 0) == Some(i as int),
            None => group_place(groups@, id@, 0) is None,
        },
{
    for i in 0..groups.len()
        invariant
            group_place(groups@, id@, 0) == group_place(groups@, id@, i as int),
    {
        if str_eq(&groups[i].id, id) {
            return Some(i);
        }
    }
    None
}

impl<S: ReviewStore> App<S> {
    /// The group that a resumed review opens on: the one it was left in, the first
    /// where that is gone.
    pub open spec fn resumed_group(&self) -> int {
        match self.session.progress().cursor {
            Some(c) => match group_place(self.groups@, c.0@, 0) {
                Some(i) => i,
                None => 0,
            },
            None => 0,
        }
    }

    /// The place that a review opens at, once its rows are there: the row it was left
    /// on, as far as there are rows.
    pub open spec fn resumed_at(&self, n: Nav) -> Nav {
        match self.session.progress().cursor {
            Some(c) => {
                let last = if self.rows@.len() > 0 {
                    (self.rows@.len() - 1) as usize
                } else {
                    0
                };
                Nav {
                    cursor: if c.1 <= last {
                        c.1
                    } else {
                        last
                    },
                    ..n
                }
            },
            None => n,
        }
    }

    /// Open the screen on a session, at the place where it was left.
    pub fn new(session: ReviewSession<S>, factory: RowFactory, split_by_default: bool) -> (r: Self)
        requires
            session.wf(),
        ensures
            r.session == session,
            r.factory == factory,
            r.split_by_default == split_by_default,
            r.folds_open@.len() == 0,
            r.status@.len() == 0,
            r.groups@.len() == groups_of(&session.document()).len(),
            forall|g: int|
                0 <= g < r.groups@.len() ==> is_info(
                    #[trigger] r.groups@[g],
                    &session.document(),
                    g,
                ),
            r.is_pane(row_views(r.rows@)),
            r.nav.selected_group == r.resumed_group(),
            exists|n: Nav|
                {
                    &&& #[trigger] r.resumed_at(n) == r.nav
                    &&& n == (if groups_of(&session.document()).len() == 0 {
                        fresh(r.resumed_group() as usize)
                    } else {
                        settled(fresh(r.resumed_group() as usize), r.rows@)
                    })
                },
    {
        let mut groups: Vec<GroupInfo> = Vec::new();
        let n = session.plan().groups.len();
        for g in 0..n
            invariant
                session.wf(),
                n == session.projection().groups@.len(),
                groups@.len() == g,
                forall|k: int|
                    0 <= k < g ==> is_info(#[trigger] groups@[k], &session.document(), k),
        {
            let v = &session.plan().groups[g];
            groups.push(group_info(session.doc(), v, Ghost(g as int)));
        }
        let mut nav = Nav::new();
        let mut resume: Option<usize> = None;
        if let Some(c) = session.cursor() {
            nav.selected_group = match find_group_place(&groups, &c.0) {
                Some(i) => i,
                None => 0,
            };
            resume = Some(c.1);
        }
        let mut app = App {
            session,
            factory,
            groups,
            nav,
            rows: Vec::new(),
            folds_open: Vec::new(),
            status: String::new(),
            split_by_default,
        };
        assert(app.nav == fresh(app.resumed_group() as usize));
        let ghost opened = app;
        app.rebuild_rows();
        let ghost built = app;
        if let Some(row) = resume {
            let last: usize = app.rows.len().saturating_sub(1);
            app.nav.cursor = if row <= last {
                row
            } else {
                last
            };
        }
        proof {
            assert(app.resumed_at(built.nav) == app.nav);
            let rows = row_views(app.rows@);
            if groups_of(&session.document()).len() > 0 {
                let reviewed = choose|reviewed: Vec<usize>| #[trigger]
                    opened.shows(reviewed, rows) && opened.lists_reviewed(reviewed);
                assert(app.shows(reviewed, rows));
                assert(app.lists_reviewed(reviewed));
            }
        }
        app
    }

    /// The mark, the tier, the counts and the label of a group: the line that the
    /// left pane shows.
    pub open spec fn group_text(&self, g: GroupInfo) -> Seq<char> {
        let done = g.hunk_keys@.len() > 0 && forall|k: int|
            0 <= k < g.hunk_keys@.len() ==> self.session.progress().marks().contains(
                (#[trigger] g.hunk_keys@[k])@,
            );
        (if done {
            "✓"@
        } else {
            " "@
        }) + tier_letter(g.effort) + " "@ + super::rows::aligned(decimal(g.n_files as nat), 2)
            + "f +"@ + crate::text::padded(decimal(g.adds as nat), 4) + "-"@ + crate::text::padded(
            decimal(g.dels as nat),
            4,
        ) + " "@ + g.label@
    }

    /// The line that the left pane shows for a group.
    pub fn group_line(&self, g: &GroupInfo) -> (r: String)
        ensures
            r@ == self.group_text(*g),
    {
        let mut done = g.hunk_keys.len() > 0;
        for k in 0..g.hunk_keys.len()
            invariant
                done == (g.hunk_keys@.len() > 0 && forall|j: int|
                    0 <= j < k ==> self.session.progress().marks().contains(
                        (#[trigger] g.hunk_keys@[j])@,
                    )),
        {
            if !self.session.is_reviewed(&g.hunk_keys[k]) {
                done = false;
            }
        }
        let mut out = if done {
            "✓".to_owned()
        } else {
            " ".to_owned()
        };
        push_str(
            &mut out,
            match g.effort {
                Effort::Focus => "F",
                Effort::Skim => "S",
                Effort::Noise => "N",
            },
        );
        push_str(&mut out, " ");
        push_str(&mut out, &aligned_number(g.n_files as u64));
        push_str(&mut out, "f +");
        push_str(&mut out, &padded_number(g.adds));
        push_str(&mut out, "-");
        push_str(&mut out, &padded_number(g.dels));
        push_str(&mut out, " ");
        push_str(&mut out, &g.label);
        out
    }

    /// How many of the findings have a status.
    pub open spec fn count_status(&self, status: FindingStatus) -> nat {
        status_count(self.session.notes()@, status, self.session.notes()@.len())
    }

    /// The title of the left pane: it warns of findings that nothing holds any more.
    pub fn groups_title(&self) -> (r: String)
        ensures
            r@ == (if self.count_status(FindingStatus::Orphaned) > 0 {
                " reading plan · ⚠ "@ + decimal(self.count_status(FindingStatus::Orphaned))
                    + " orphaned finding(s) "@
            } else {
                " reading plan "@
            }),
    {
        let n = count_findings(self.session.findings(), FindingStatus::Orphaned);
        if n > 0 {
            let mut out = " reading plan · ⚠ ".to_owned();
            push_decimal(&mut out, n as u64);
            push_str(&mut out, " orphaned finding(s) ");
            out
        } else {
            " reading plan ".to_owned()
        }
    }

    /// The status line: how far the reader is, how many findings are open, what was
    /// said last, and the keys.
    pub fn status_line(&self) -> (r: String)
        requires
            self.session.wf(),
        ensures
            exists|done: nat|
                {
                    &&& r@ == #[trigger] self.status_text(done)
                    &&& exists|places: Seq<usize>|
                        {
                            &&& done == places.len()
                            &&& forall|i: int, j: int|
                                0 <= i < j < places.len() ==> places[i] < places[j]
                            &&& forall|h: usize| #[trigger]
                                places.contains(h) <==> self.session.hunk_marked(h as int)
                        }
                },
    {
        let done = self.session.reviewed_count();
        let total = count_classes(&self.groups);
        let shown: usize = if done <= total {
            done
        } else {
            total
        };
        let open = count_findings(self.session.findings(), FindingStatus::Open);
        let mut out = " ".to_owned();
        push_decimal(&mut out, shown as u64);
        push_str(&mut out, "/");
        push_decimal(&mut out, total as u64);
        push_str(&mut out, " classes reviewed · ");
        push_decimal(&mut out, open as u64);
        push_str(&mut out, " finding(s) · ");
        push_str(&mut out, &self.status);
        push_str(&mut out, KEYS);
        assert(out@ == self.status_text(done as nat));
        out
    }

    /// The status line, given how many hunks are reviewed: never more than there are
    /// classes.
    pub open spec fn status_text(&self, done: nat) -> Seq<char> {
        let total = classes_shown(self.groups@, self.groups@.len());
        " "@ + decimal(
            if done <= total {
                done
            } else {
                total
            },
        ) + "/"@ + decimal(total) + " classes reviewed · "@ + decimal(
            self.count_status(FindingStatus::Open),
        ) + " finding(s) · "@ + self.status@ + KEYS@
    }
}

/// How many classes the first `k` groups have, as far as they can be counted.
pub open spec fn classes_shown(groups: Seq<GroupInfo>, k: nat) -> nat
    decreases k,
{
    if k == 0 {
        0
    } else {
        let n = classes_shown(groups, (k - 1) as nat) + groups[k - 1].n_classes;
        if n <= usize::MAX {
            n as nat
        } else {
            usize::MAX as nat
        }
    }
}

fn count_classes(groups: &Vec<GroupInfo>) -> (r: usize)
    ensures
        r == classes_shown(groups@, groups@.len()),
{
    let mut n: usize = 0;
    for i in 0..groups.len()
        invariant
            n == classes_shown(groups@, i as nat),
    {
        n = n.saturating_add(groups[i].n_classes);
    }
    n
}

/// The keys, as the status line lists them.
pub const KEYS: &'static str =
    " · j/k J/K nav · space reviewed · c finding · s split · z fold · y yank · ? help · q quit";

/// The place of a reader who opens a group.
pub open spec fn fresh(selected_group: usize) -> Nav {
    Nav {
        focus: super::nav::Focus::Groups,
        mode: super::nav::Mode::Normal,
        selected_group,
        cursor: 0,
        scroll: 0,
        group_scroll: 0,
        viewport_hint: 24,
        pending_d: false,
    }
}

/// The letter of a tier.
pub open spec fn tier_letter(e: Effort) -> Seq<char> {
    match e {
        Effort::Focus => "F"@,
        Effort::Skim => "S"@,
        Effort::Noise => "N"@,
    }
}

/// How many of the first `k` findings have a status.
pub open spec fn status_count(findings: Seq<Finding>, status: FindingStatus, k: nat) -> nat
    decreases k,
{
    if k == 0 {
        0
    } else {
        status_count(findings, status, (k - 1) as nat) + (if findings[k - 1].status == status {
            1nat
        } else {
            0
        })
    }
}

fn count_findings(findings: &Vec<Finding>, status: FindingStatus) -> (r: usize)
    ensures
        r == status_count(findings@, status, findings@.len()),
{
    let mut n: usize = 0;
    for i in 0..findings.len()
        invariant
            n <= i,
            n == status_count(findings@, status, i as nat),
    {
        if findings[i].status == status {
            n = n + 1;
        }
    }
    n
}

fn aligned_number(n: u64) -> (r: String)
    ensures
        r@ == super::rows::aligned(decimal(n as nat), 2),
{
    let mut digits = String::new();
    push_decimal(&mut digits, n);
    assert(digits@ =~= decimal(n as nat));
    let cs = crate::text::chars_of(&digits);
    if cs.len() >= 2 {
        return digits;
    }
    let mut out = String::new();
    let missing: usize = 2 - cs.len();
    for i in 0..missing
        invariant
            out@ == crate::text::spaces(i as nat),
    {
        out.push(' ');
        assert(out@ =~= crate::text::spaces((i + 1) as nat));
    }
    push_str(&mut out, &digits);
    out
}

fn padded_number(n: u64) -> (r: String)
    ensures
        r@ == crate::text::padded(decimal(n as nat), 4),
{
    let mut digits = String::new();
    push_decimal(&mut digits, n);
    assert(digits@ =~= decimal(n as nat));
    crate::text::pad(&digits, 4)
}

/// Rows that were built anew are those of the state that the reader is left in: what
/// is drawn and what keys act on never disagree.
pub proof fn law_rebuilt_rows_are_those_of_the_state<S: ReviewStore>(a: App<S>, b: App<S>)
    requires
        a.rebuilt(&b),
    ensures
        b.is_pane(row_views(b.rows@)),
{
    let rows = row_views(b.rows@);
    if groups_of(&a.session.document()).len() > 0 {
        let reviewed = choose|reviewed: Vec<usize>| #[trigger]
            a.shows(reviewed, rows) && a.lists_reviewed(reviewed);
        assert(b.shows(reviewed, rows));
        assert(b.lists_reviewed(reviewed));
    }
}

} // verus!
