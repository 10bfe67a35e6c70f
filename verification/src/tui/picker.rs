//! The source picker: uncommitted state (worktree or staged), or everything since a
//! recent commit.
use vstd::prelude::*;

use super::{KeyCode, KeyEvent};
use crate::gitio::CommitSummary;
use crate::text::push_str;

verus! {

/// What was picked.
#[derive(Debug, Clone, PartialEq, Eq)]
pub enum PickedSource {
    /// Review everything since this commit: `<sha>..HEAD`.
    Commit { sha: String },
    /// Index against HEAD.
    Staged,
    /// Worktree (untracked files too) against the index.
    Worktree,
}

/// The picker's state: the first two items are the worktree and the index, the
/// others the commits.
#[derive(Debug, Clone)]
pub struct Picker {
    pub commits: Vec<CommitSummary>,
    pub selected: usize,
}

/// What a key came to.
#[derive(Debug, Clone, PartialEq, Eq)]
pub enum Outcome {
    Stay,
    Picked(PickedSource),
    Cancelled,
}

/// What an outcome is.
pub enum OutcomeView {
    Stay,
    Commit(Seq<char>),
    Staged,
    Worktree,
    Cancelled,
}

impl Outcome {
    pub open spec fn view_of(&self) -> OutcomeView {
        match *self {
            Outcome::Stay => OutcomeView::Stay,
            Outcome::Picked(PickedSource::Commit { sha }) => OutcomeView::Commit(sha@),
            Outcome::Picked(PickedSource::Staged) => OutcomeView::Staged,
            Outcome::Picked(PickedSource::Worktree) => OutcomeView::Worktree,
            Outcome::Cancelled => OutcomeView::Cancelled,
        }
    }
}

impl Picker {
    /// How many items there are.
    pub open spec fn items(&self) -> nat {
        self.commits@.len() + 2
    }

    /// Whether an item is selected, and the items can be counted.
    pub open spec fn wf(&self) -> bool {
        0 <= self.selected < self.items() <= usize::MAX
    }

    pub fn new(commits: Vec<CommitSummary>) -> (r: Self)
        requires
            commits@.len() + 2 <= usize::MAX,
        ensures
            r.wf(),
            r.commits == commits,
            r.selected == 0,
    {
        Picker { commits, selected: 0 }
    }

    /// What an item stands for.
    pub open spec fn source(&self, i: int) -> OutcomeView {
        if i == 0 {
            OutcomeView::Worktree
        } else if i == 1 {
            OutcomeView::Staged
        } else {
            OutcomeView::Commit(self.commits@[i - 2].sha@)
        }
    }

    /// One key: move, pick what is selected, or leave. The selection stays on an
    /// item.
    pub fn handle_key(&mut self, key: KeyEvent) -> (r: Outcome)
        requires
            old(self).wf(),
        ensures
            final(self).wf(),
            final(self).commits == old(self).commits,
            match key.code {
                KeyCode::Char('j') | KeyCode::Down => {
                    &&& r.view_of() == OutcomeView::Stay
                    &&& final(self).selected == (if old(self).selected + 1 < old(self).items() {
                        old(self).selected + 1
                    } else {
                        old(self).selected as int
                    })
                },
                KeyCode::Char('k') | KeyCode::Up => {
                    &&& r.view_of() == OutcomeView::Stay
                    &&& final(self).selected == (if old(self).selected > 0 {
                        old(self).selected - 1
                    } else {
                        0
                    })
                },
                KeyCode::Enter => {
                    &&& final(self).selected == old(self).selected
                    &&& r.view_of() == old(self).source(old(self).selected as int)
                },
                KeyCode::Esc | KeyCode::Char('q') => {
                    &&& final(self).selected == old(self).selected
                    &&& r.view_of() == OutcomeView::Cancelled
                },
                _ => {
                    &&& final(self).selected == old(self).selected
                    &&& r.view_of() == OutcomeView::Stay
                },
            },
    {
        match key.code {
            KeyCode::Char('j') | KeyCode::Down => {
                if self.selected == 0 || self.selected - 1 < self.commits.len() {
                    self.selected = self.selected + 1;
                }
                Outcome::Stay
            },
            KeyCode::Char('k') | KeyCode::Up => {
                if self.selected > 0 {
                    self.selected = self.selected - 1;
                }
                Outcome::Stay
            },
            KeyCode::Enter => {
                if self.selected == 0 {
                    Outcome::Picked(PickedSource::Worktree)
                } else if self.selected == 1 {
                    Outcome::Picked(PickedSource::Staged)
                } else {
                    let sha = self.commits[self.selected - 2].sha.clone();
                    Outcome::Picked(PickedSource::Commit { sha })
                }
            },
            KeyCode::Esc | KeyCode::Char('q') => Outcome::Cancelled,
            _ => Outcome::Stay,
        }
    }

    /// The line of an item.
    pub open spec fn line_of(&self, i: int) -> Seq<char> {
        if i == 0 {
            "  worktree — all uncommitted changes (staged + unstaged + untracked)"@
        } else if i == 1 {
            "  staged   — what `git commit` would record (index vs HEAD)"@
        } else {
            let c = self.commits@[i - 2];
            "  "@ + c.short@ + "  "@ + c.subject@ + "  ("@ + c.author@ + ")"@
        }
    }

    /// The line of an item.
    pub fn item_text(&self, i: usize) -> (r: String)
        requires
            i < self.items(),
        ensures
            r@ == self.line_of(i as int),
    {
        if i == 0 {
            "  worktree — all uncommitted changes (staged + unstaged + untracked)".to_owned()
        } else if i == 1 {
            "  staged   — what `git commit` would record (index vs HEAD)".to_owned()
        } else {
            let c = &self.commits[i - 2];
            let mut out = "  ".to_owned();
            push_str(&mut out, &c.short);
            push_str(&mut out, "  ");
            push_str(&mut out, &c.subject);
            push_str(&mut out, "  (");
            push_str(&mut out, &c.author);
            push_str(&mut out, ")");
            out
        }
    }

    /// The lines of the first `n` items. A heading parts the uncommitted sources from
    /// the commits.
    pub open spec fn lines_until(&self, n: int) -> Seq<(LineKind, Seq<char>)>
        decreases n,
    {
        if n <= 0 {
            Seq::empty()
        } else {
            let line = (LineKind::Item(n - 1 == self.selected), self.line_of(n - 1));
            let before = self.lines_until(n - 1).push(line);
            if n == 2 && self.commits@.len() > 1 {
                before.push((LineKind::Note, HEADING@))
            } else {
                before
            }
        }
    }

    /// The lines of the screen: the items between blank lines, then the keys.
    pub open spec fn shown(&self) -> Seq<(LineKind, Seq<char>)> {
        seq![(LineKind::Note, ""@)] + self.lines_until(self.items() as int) + seq![
            (LineKind::Note, ""@),
            (LineKind::Note, KEYS@),
        ]
    }

    /// The lines of the screen.
    pub fn lines(&self) -> (r: Vec<PickerLine>)
        requires
            self.wf(),
        ensures
            line_views(r@) == self.shown(),
    {
        let mut out: Vec<PickerLine> = Vec::new();
        out.push(PickerLine { kind: LineKind::Note, text: "".to_owned() });
        let ghost head = seq![(LineKind::Note, ""@)];
        assert(line_views(out@) =~= head + self.lines_until(0));
        assert(self.commits@.len() == self.commits.len());
        let n: usize = self.commits.len() + 2;
        for i in 0..n
            invariant
                self.wf(),
                n == self.items(),
                line_views(out@) == head + self.lines_until(i as int),
        {
            let ghost had = line_views(out@);
            let kind = LineKind::Item(i == self.selected);
            out.push(PickerLine { kind, text: self.item_text(i) });
            assert(line_views(out@) =~= had.push((kind, self.line_of(i as int))));
            let ghost had = line_views(out@);
            if i == 1 && self.commits.len() > 1 {
                out.push(PickerLine { kind: LineKind::Note, text: HEADING.to_owned() });
                assert(line_views(out@) =~= had.push((LineKind::Note, HEADING@)));
            }
            assert(line_views(out@) =~= head + self.lines_until(i + 1));
        }
        let ghost had = line_views(out@);
        out.push(PickerLine { kind: LineKind::Note, text: "".to_owned() });
        out.push(PickerLine { kind: LineKind::Note, text: KEYS.to_owned() });
        assert(line_views(out@) =~= had + seq![(LineKind::Note, ""@), (LineKind::Note, KEYS@)]);
        assert(line_views(out@) =~= self.shown());
        out
    }
}

/// What stands between the uncommitted sources and the commits.
pub const HEADING: &'static str = "  ── or review everything since a commit (<commit>..HEAD) ──";

/// What the keys do.
pub const KEYS: &'static str = "  j/k move · enter review · q cancel";

/// What a line of the screen is: an item, selected or not, or text around them.
#[derive(Debug, Clone, Copy, PartialEq, Eq, Structural)]
pub enum LineKind {
    Item(bool),
    Note,
}

/// A line of the screen.
#[derive(Debug, Clone, PartialEq, Eq)]
pub struct PickerLine {
    pub kind: LineKind,
    pub text: String,
}

/// Lines by what they show.
pub open spec fn line_views(ls: Seq<PickerLine>) -> Seq<(LineKind, Seq<char>)> {
    ls.map_values(|l: PickerLine| (l.kind, l.text@))
}

} // verus!
