//! What each key does to the place of the reader, and what it asks for.
use vstd::prelude::*;

use super::rows::{Row, RowKind};
use super::{KeyCode, KeyEvent, Modifiers};

verus! {

/// How many rows stay between the cursor and the edge of the pane.
pub const SCROLL_MARGIN: usize = 3;

/// The smallest page that is reckoned with.
pub const LEAST_PAGE: usize = 8;

/// Which pane keys go to.
#[derive(Debug, Clone, Copy, PartialEq, Eq, Structural)]
pub enum Focus {
    Groups,
    Diff,
}

/// What the reader is doing.
#[derive(Debug, Clone, Copy, PartialEq, Eq, Structural)]
pub enum Mode {
    Normal,
    /// Writing a finding on a hunk.
    Editing(usize),
    Help,
}

/// The place of the reader.
#[derive(Debug, Clone, Copy, PartialEq, Eq, Structural)]
pub struct Nav {
    pub focus: Focus,
    pub mode: Mode,
    pub selected_group: usize,
    pub cursor: usize,
    pub scroll: usize,
    pub group_scroll: usize,
    /// Inner height of the diff pane, as it was last drawn.
    pub viewport_hint: usize,
    /// A `d` waits for its second.
    pub pending_d: bool,
}

/// What a key asks for beyond the place of the reader.
#[derive(Debug, Clone, Copy, PartialEq, Eq, Structural)]
pub enum Action {
    Stay,
    Quit,
    /// The selected group changed.
    Rebuild,
    ToggleFold,
    ToggleSplit,
    ToggleReviewed(usize),
    /// Delete the finding on a row.
    DeleteFinding(usize),
    NoFinding,
    NoHunk,
    Yank,
    /// The key goes to the editor.
    Type,
    Discard,
    /// Keep what was written as a finding on a hunk.
    Save(usize),
}

impl Nav {
    pub fn new() -> (r: Self)
        ensures
            r == (Nav {
                focus: Focus::Groups,
                mode: Mode::Normal,
                selected_group: 0,
                cursor: 0,
                scroll: 0,
                group_scroll: 0,
                viewport_hint: 24,
                pending_d: false,
            }),
    {
        Nav {
            focus: Focus::Groups,
            mode: Mode::Normal,
            selected_group: 0,
            cursor: 0,
            scroll: 0,
            group_scroll: 0,
            viewport_hint: 24,
            pending_d: false,
        }
    }
}

/// The first row from `from` on that the cursor can stand on.
pub open spec fn next_row(rows: Seq<Row>, from: int) -> Option<int>
    decreases rows.len() - from,
{
    if from >= rows.len() {
        None
    } else if rows[from].kind.can_select() {
        Some(from)
    } else {
        next_row(rows, from + 1)
    }
}

/// The last row up to `from` that the cursor can stand on; none where `from` is
/// outside the rows.
pub open spec fn last_row(rows: Seq<Row>, from: int) -> Option<int>
    decreases from + 1,
{
    if from < 0 || from >= rows.len() {
        None
    } else if rows[from].kind.can_select() {
        Some(from)
    } else {
        last_row(rows, from - 1)
    }
}

/// The first row from `from` on that the cursor can stand on.
pub fn find_next(rows: &Vec<Row>, from: usize) -> (r: Option<usize>)
    ensures
        match r {
            Some(i) => next_row(rows@, from as int) == Some(i as int) && i < rows@.len()
                && rows@[i as int].kind.can_select(),
            None => next_row(rows@, from as int) is None,
        },
{
    if from >= rows.len() {
        return None;
    }
    for i in from..rows.len()
        invariant
            next_row(rows@, from as int) == next_row(rows@, i as int),
    {
        if rows[i].kind.selectable() {
            return Some(i);
        }
    }
    None
}

/// The last row up to `from` that the cursor can stand on.
pub fn find_last(rows: &Vec<Row>, from: usize) -> (r: Option<usize>)
    ensures
        match r {
            Some(i) => last_row(rows@, from as int) == Some(i as int) && i < rows@.len()
                && rows@[i as int].kind.can_select(),
            None => last_row(rows@, from as int) is None,
        },
{
    if from >= rows.len() {
        return None;
    }
    let mut i: usize = from;
    loop
        invariant
            i < rows@.len(),
            last_row(rows@, from as int) == last_row(rows@, i as int),
        decreases i,
    {
        if rows[i].kind.selectable() {
            return Some(i);
        }
        if i == 0 {
            assert(last_row(rows@, -1) is None);
            return None;
        }
        i = i - 1;
    }
}

/// A page: the height of the pane, or the least one.
pub open spec fn page(hint: usize) -> int {
    if hint >= LEAST_PAGE {
        hint as int
    } else {
        LEAST_PAGE as int
    }
}

/// The scroll that keeps the cursor in the pane, with a margin.
pub open spec fn followed(n: Nav) -> Nav {
    let scroll = if n.cursor < n.scroll + SCROLL_MARGIN {
        if n.cursor >= SCROLL_MARGIN {
            n.cursor - SCROLL_MARGIN
        } else {
            0
        }
    } else if n.cursor + SCROLL_MARGIN + 1 > n.scroll + page(n.viewport_hint) {
        n.cursor + SCROLL_MARGIN + 1 - page(n.viewport_hint)
    } else {
        n.scroll as int
    };
    Nav { scroll: scroll as usize, ..n }
}

/// Scroll so that the cursor stays in the pane.
pub fn follow_cursor(n: &mut Nav)
    ensures
        *final(n) == followed(*old(n)),
{
    let h: usize = if n.viewport_hint >= LEAST_PAGE {
        n.viewport_hint
    } else {
        LEAST_PAGE
    };
    let cursor: u128 = n.cursor as u128;
    let scroll: u128 = n.scroll as u128;
    if cursor < scroll + SCROLL_MARGIN as u128 {
        n.scroll = n.cursor.saturating_sub(SCROLL_MARGIN);
    } else if cursor + SCROLL_MARGIN as u128 + 1 > scroll + h as u128 {
        n.scroll = (cursor + SCROLL_MARGIN as u128 + 1 - h as u128) as usize;
    }
}

/// The cursor moved to a row, and kept in the pane.
pub open spec fn at(n: Nav, cursor: int) -> Nav {
    followed(Nav { cursor: cursor as usize, ..n })
}

/// One row down or up, over rows that the cursor cannot stand on.
pub open spec fn moved(n: Nav, rows: Seq<Row>, down: bool) -> Nav {
    let next = if down {
        next_row(rows, n.cursor + 1)
    } else {
        last_row(
            rows,
            if n.cursor > 0 {
                n.cursor - 1
            } else {
                0
            },
        )
    };
    match next {
        Some(i) => at(n, i),
        None => followed(n),
    }
}

fn move_cursor(n: &mut Nav, rows: &Vec<Row>, down: bool)
    ensures
        *final(n) == moved(*old(n), rows@, down),
{
    let next: Option<usize> = if down {
        if n.cursor < rows.len() {
            find_next(rows, n.cursor + 1)
        } else {
            None
        }
    } else {
        find_last(rows, n.cursor.saturating_sub(1))
    };
    if let Some(i) = next {
        n.cursor = i;
    }
    follow_cursor(n);
}

/// Another group, as far as there is one: the reader starts at its top.
pub open spec fn grouped(n: Nav, groups: nat, next: bool) -> (Nav, Action) {
    if groups == 0 {
        (n, Action::Stay)
    } else {
        let wanted = if next {
            n.selected_group + 1
        } else if n.selected_group > 0 {
            n.selected_group - 1
        } else {
            0
        };
        let selected = if wanted < groups {
            wanted
        } else {
            groups - 1
        };
        (Nav { selected_group: selected as usize, cursor: 0, scroll: 0, ..n }, Action::Rebuild)
    }
}

fn select_group(n: &mut Nav, groups: usize, next: bool) -> (r: Action)
    ensures
        (*final(n), r) == grouped(*old(n), groups as nat, next),
{
    if groups == 0 {
        return Action::Stay;
    }
    let wanted: usize = if next {
        if n.selected_group < groups {
            n.selected_group + 1
        } else {
            n.selected_group
        }
    } else {
        n.selected_group.saturating_sub(1)
    };
    n.selected_group = if wanted < groups {
        wanted
    } else {
        groups - 1
    };
    n.cursor = 0;
    n.scroll = 0;
    Action::Rebuild
}

/// Half a page down.
pub open spec fn paged_down(n: Nav, rows: Seq<Row>) -> Nav {
    let last = if rows.len() > 0 {
        rows.len() - 1
    } else {
        0
    };
    let wanted = n.cursor + page(n.viewport_hint) / 2;
    let c = if wanted <= last {
        wanted
    } else {
        last
    };
    at(
        n,
        match last_row(rows, c) {
            Some(i) => i,
            None => c,
        },
    )
}

/// Half a page up.
pub open spec fn paged_up(n: Nav, rows: Seq<Row>) -> Nav {
    let half = page(n.viewport_hint) / 2;
    let c = if n.cursor >= half {
        n.cursor - half
    } else {
        0
    };
    at(
        n,
        match next_row(rows, c) {
            Some(i) => i,
            None => c,
        },
    )
}

fn page_down(n: &mut Nav, rows: &Vec<Row>)
    ensures
        *final(n) == paged_down(*old(n), rows@),
{
    let h: usize = (if n.viewport_hint >= LEAST_PAGE {
        n.viewport_hint
    } else {
        LEAST_PAGE
    }) / 2;
    let last: usize = rows.len().saturating_sub(1);
    let wanted: u128 = n.cursor as u128 + h as u128;
    let c: usize = if wanted <= last as u128 {
        wanted as usize
    } else {
        last
    };
    n.cursor = match find_last(rows, c) {
        Some(i) => i,
        None => c,
    };
    follow_cursor(n);
}

fn page_up(n: &mut Nav, rows: &Vec<Row>)
    ensures
        *final(n) == paged_up(*old(n), rows@),
{
    let h: usize = (if n.viewport_hint >= LEAST_PAGE {
        n.viewport_hint
    } else {
        LEAST_PAGE
    }) / 2;
    let c: usize = n.cursor.saturating_sub(h);
    n.cursor = match find_next(rows, c) {
        Some(i) => i,
        None => c,
    };
    follow_cursor(n);
}

/// The hunk under the cursor.
pub open spec fn hunk_under(n: Nav, rows: Seq<Row>) -> Option<usize> {
    if n.cursor < rows.len() {
        rows[n.cursor as int].kind.hunk_of()
    } else {
        None
    }
}

/// The hunk under the cursor.
pub fn current_hunk(n: &Nav, rows: &Vec<Row>) -> (r: Option<usize>)
    ensures
        r == hunk_under(*n, rows@),
{
    if n.cursor < rows.len() {
        rows[n.cursor].kind.hunk()
    } else {
        None
    }
}

/// Whether a finding is under the cursor.
pub open spec fn on_finding(n: Nav, rows: Seq<Row>) -> bool {
    n.cursor < rows.len() && rows[n.cursor as int].kind is Finding
}

/// What a key does while nothing is written and no help is shown. `n` waits for no
/// second `d` any more; `pending_d` says whether it did.
pub open spec fn normal_step(
    n: Nav,
    pending_d: bool,
    rows: Seq<Row>,
    groups: nat,
    key: KeyEvent,
) -> (Nav, Action) {
    let plain = key.modifiers == Modifiers::Nothing;
    let control = key.modifiers == Modifiers::Control;
    match key.code {
        KeyCode::Char('q') => (n, Action::Quit),
        KeyCode::Char('?') => (Nav { mode: Mode::Help, ..n }, Action::Stay),
        KeyCode::Tab => (
            Nav {
                focus: if n.focus == Focus::Groups {
                    Focus::Diff
                } else {
                    Focus::Groups
                },
                ..n
            },
            Action::Stay,
        ),
        KeyCode::Enter => (Nav { focus: Focus::Diff, ..n }, Action::Stay),
        KeyCode::Down => step_by(n, rows, groups, true),
        KeyCode::Up => step_by(n, rows, groups, false),
        KeyCode::Char('j') => if plain {
            step_by(n, rows, groups, true)
        } else {
            (n, Action::Stay)
        },
        KeyCode::Char('k') => if plain {
            step_by(n, rows, groups, false)
        } else {
            (n, Action::Stay)
        },
        KeyCode::Char('J') | KeyCode::Char('}') => grouped(n, groups, true),
        KeyCode::Char('K') | KeyCode::Char('{') => grouped(n, groups, false),
        KeyCode::Char('d') => if control {
            (paged_down(n, rows), Action::Stay)
        } else if plain && pending_d {
            (
                n,
                if on_finding(n, rows) {
                    Action::DeleteFinding(n.cursor)
                } else {
                    Action::NoFinding
                },
            )
        } else if plain {
            (Nav { pending_d: true, ..n }, Action::Stay)
        } else {
            (n, Action::Stay)
        },
        KeyCode::Char('u') => (
            if control {
                paged_up(n, rows)
            } else {
                n
            },
            Action::Stay,
        ),
        KeyCode::Char('g') => (
            at(
                n,
                match next_row(rows, 0) {
                    Some(i) => i,
                    None => 0,
                },
            ),
            Action::Stay,
        ),
        KeyCode::Char('G') => (
            at(
                n,
                match last_row(
                    rows,
                    if rows.len() > 0 {
                        rows.len() - 1
                    } else {
                        0
                    },
                ) {
                    Some(i) => i,
                    None => 0,
                },
            ),
            Action::Stay,
        ),
        KeyCode::Char('z') => (
            n,
            if n.selected_group < groups {
                Action::ToggleFold
            } else {
                Action::Stay
            },
        ),
        KeyCode::Char('s') => (
            n,
            if plain {
                Action::ToggleSplit
            } else {
                Action::Stay
            },
        ),
        KeyCode::Char(' ') => (
            n,
            match hunk_under(n, rows) {
                Some(h) => Action::ToggleReviewed(h),
                None => Action::Stay,
            },
        ),
        KeyCode::Char('c') => if !plain {
            (n, Action::Stay)
        } else {
            match hunk_under(n, rows) {
                Some(h) => (Nav { mode: Mode::Editing(h), ..n }, Action::Stay),
                None => (n, Action::NoHunk),
            }
        },
        KeyCode::Char('y') => (n, Action::Yank),
        _ => (n, Action::Stay),
    }
}

/// One step down or up: in the left pane a group, in the right one a row.
pub open spec fn step_by(n: Nav, rows: Seq<Row>, groups: nat, down: bool) -> (Nav, Action) {
    match n.focus {
        Focus::Groups => grouped(n, groups, down),
        Focus::Diff => (moved(n, rows, down), Action::Stay),
    }
}

/// What a key does. Help goes away with any key; while a finding is written, `Esc`
/// discards it, the control key and `s` save it, and every other key is text.
pub open spec fn step(n: Nav, rows: Seq<Row>, groups: nat, key: KeyEvent) -> (Nav, Action) {
    match n.mode {
        Mode::Help => (Nav { mode: Mode::Normal, ..n }, Action::Stay),
        Mode::Editing(h) => if key.code == KeyCode::Esc {
            (Nav { mode: Mode::Normal, ..n }, Action::Discard)
        } else if key.code == KeyCode::Char('s') && key.modifiers == Modifiers::Control {
            (Nav { mode: Mode::Normal, ..n }, Action::Save(h))
        } else {
            (n, Action::Type)
        },
        Mode::Normal => normal_step(
            Nav { pending_d: false, ..n },
            n.pending_d,
            rows,
            groups,
            key,
        ),
    }
}

fn move_by(n: &mut Nav, rows: &Vec<Row>, groups: usize, down: bool) -> (r: Action)
    ensures
        (*final(n), r) == step_by(*old(n), rows@, groups as nat, down),
{
    match n.focus {
        Focus::Groups => select_group(n, groups, down),
        Focus::Diff => {
            move_cursor(n, rows, down);
            Action::Stay
        },
    }
}

fn decide_normal(
    n: &mut Nav,
    pending_d: bool,
    rows: &Vec<Row>,
    groups: usize,
    key: KeyEvent,
) -> (r: Action)
    ensures
        (*final(n), r) == normal_step(*old(n), pending_d, rows@, groups as nat, key),
{
    let plain = key.modifiers == Modifiers::Nothing;
    let control = key.modifiers == Modifiers::Control;
    match key.code {
        KeyCode::Char('q') => Action::Quit,
        KeyCode::Char('?') => {
            n.mode = Mode::Help;
            Action::Stay
        },
        KeyCode::Tab => {
            n.focus = if n.focus == Focus::Groups {
                Focus::Diff
            } else {
                Focus::Groups
            };
            Action::Stay
        },
        KeyCode::Enter => {
            n.focus = Focus::Diff;
            Action::Stay
        },
        KeyCode::Down => move_by(n, rows, groups, true),
        KeyCode::Up => move_by(n, rows, groups, false),
        KeyCode::Char('j') => if plain {
            move_by(n, rows, groups, true)
        } else {
            Action::Stay
        },
        KeyCode::Char('k') => if plain {
            move_by(n, rows, groups, false)
        } else {
            Action::Stay
        },
        KeyCode::Char('J') | KeyCode::Char('}') => select_group(n, groups, true),
        KeyCode::Char('K') | KeyCode::Char('{') => select_group(n, groups, false),
        KeyCode::Char('d') => {
            if control {
                page_down(n, rows);
                Action::Stay
            } else if plain && pending_d {
                if n.cursor < rows.len() {
                    if let RowKind::Finding(_, _) = &rows[n.cursor].kind {
                        return Action::DeleteFinding(n.cursor);
                    }
                }
                Action::NoFinding
            } else {
                if plain {
                    n.pending_d = true;
                }
                Action::Stay
            }
        },
        KeyCode::Char('u') => {
            if control {
                page_up(n, rows);
            }
            Action::Stay
        },
        KeyCode::Char('g') => {
            n.cursor = match find_next(rows, 0) {
                Some(i) => i,
                None => 0,
            };
            follow_cursor(n);
            Action::Stay
        },
        KeyCode::Char('G') => {
            n.cursor = match find_last(rows, rows.len().saturating_sub(1)) {
                Some(i) => i,
                None => 0,
            };
            follow_cursor(n);
            Action::Stay
        },
        KeyCode::Char('z') => if n.selected_group < groups {
            Action::ToggleFold
        } else {
            Action::Stay
        },
        KeyCode::Char('s') => if plain {
            Action::ToggleSplit
        } else {
            Action::Stay
        },
        KeyCode::Char(' ') => match current_hunk(n, rows) {
            Some(h) => Action::ToggleReviewed(h),
            None => Action::Stay,
        },
        KeyCode::Char('c') => {
            if !plain {
                return Action::Stay;
            }
            match current_hunk(n, rows) {
                Some(h) => {
                    n.mode = Mode::Editing(h);
                    Action::Stay
                },
                None => Action::NoHunk,
            }
        },
        KeyCode::Char('y') => Action::Yank,
        _ => Action::Stay,
    }
}

/// What a key does.
pub fn decide(n: &mut Nav, rows: &Vec<Row>, groups: usize, key: KeyEvent) -> (r: Action)
    ensures
        (*final(n), r) == step(*old(n), rows@, groups as nat, key),
{
    match n.mode {
        Mode::Help => {
            n.mode = Mode::Normal;
            Action::Stay
        },
        Mode::Editing(h) => {
            if key.code == KeyCode::Esc {
                n.mode = Mode::Normal;
                Action::Discard
            } else if key.code == KeyCode::Char('s') && key.modifiers == Modifiers::Control {
                n.mode = Mode::Normal;
                Action::Save(h)
            } else {
                Action::Type
            }
        },
        Mode::Normal => {
            let pending_d = n.pending_d;
            n.pending_d = false;
            decide_normal(n, pending_d, rows, groups, key)
        },
    }
}

/// The place after the rows were built anew: on a row that the cursor can stand on,
/// as far as there is one.
pub open spec fn settled(n: Nav, rows: Seq<Row>) -> Nav {
    let last = if rows.len() > 0 {
        rows.len() - 1
    } else {
        0
    };
    let c = if n.cursor <= last {
        n.cursor as int
    } else {
        last
    };
    let cursor = if c < rows.len() && rows[c].kind.can_select() {
        c
    } else {
        match next_row(rows, 0) {
            Some(i) => i,
            None => 0,
        }
    };
    Nav { cursor: cursor as usize, ..n }
}

/// Settle the cursor after the rows were built anew.
pub fn settle(n: &mut Nav, rows: &Vec<Row>)
    ensures
        *final(n) == settled(*old(n), rows@),
{
    let last: usize = rows.len().saturating_sub(1);
    if n.cursor > last {
        n.cursor = last;
    }
    if !(n.cursor < rows.len() && rows[n.cursor].kind.selectable()) {
        n.cursor = match find_next(rows, 0) {
            Some(i) => i,
            None => 0,
        };
    }
}

/// The scroll of the left pane that keeps the selected group in it; behind that group
/// where the pane has no height.
pub open spec fn groups_scrolled(n: Nav, height: usize) -> Nav {
    let scroll = if n.selected_group < n.group_scroll {
        n.selected_group as int
    } else if n.selected_group >= n.group_scroll + height {
        n.selected_group + 1 - height
    } else {
        n.group_scroll as int
    };
    Nav { group_scroll: scroll as usize, ..n }
}

/// Scroll the left pane so that the selected group stays in it. A pane of no height
/// is scrolled behind the selected group.
pub fn scroll_groups(n: &mut Nav, height: usize)
    requires
        old(n).selected_group + 1 - height <= usize::MAX,
    ensures
        *final(n) == groups_scrolled(*old(n), height),
{
    if n.selected_group < n.group_scroll {
        n.group_scroll = n.selected_group;
    } else if n.selected_group - n.group_scroll >= height {
        n.group_scroll = if height == 0 {
            n.selected_group + 1
        } else {
            n.selected_group - (height - 1)
        };
    }
}

/// A row has been chosen by a key that moves only where the cursor can stand, as far
/// as there is such a row.
pub proof fn law_the_cursor_lands_on_a_row_that_can_be_selected(
    n: Nav,
    rows: Seq<Row>,
    down: bool,
)
    requires
        rows.len() <= usize::MAX,
        n.cursor < rows.len(),
        rows[n.cursor as int].kind.can_select(),
    ensures
        moved(n, rows, down).cursor < rows.len(),
        rows[moved(n, rows, down).cursor as int].kind.can_select(),
        down ==> moved(n, rows, down).cursor >= n.cursor,
        !down ==> moved(n, rows, down).cursor <= n.cursor,
{
    lemma_next_row(rows, n.cursor + 1);
    lemma_last_row(
        rows,
        if n.cursor > 0 {
            n.cursor - 1
        } else {
            0
        },
    );
}

proof fn lemma_next_row(rows: Seq<Row>, from: int)
    requires
        0 <= from,
    ensures
        next_row(rows, from) matches Some(i) ==> from <= i < rows.len()
            && rows[i].kind.can_select(),
    decreases rows.len() - from,
{
    if from < rows.len() {
        lemma_next_row(rows, from + 1);
    }
}

proof fn lemma_last_row(rows: Seq<Row>, from: int)
    ensures
        last_row(rows, from) matches Some(i) ==> 0 <= i <= from && i < rows.len()
            && rows[i].kind.can_select(),
    decreases from + 1,
{
    if 0 <= from < rows.len() {
        lemma_last_row(rows, from - 1);
    }
}

/// After a scroll the cursor is in the pane, and three rows away from both its ends
/// unless it is at the top of all rows. A cursor that was there already moves nothing.
pub proof fn law_the_cursor_stays_in_the_pane(n: Nav)
    requires
        n.cursor + 4 <= usize::MAX,
    ensures
        followed(n).cursor == n.cursor,
        followed(n).scroll <= n.cursor,
        n.viewport_hint >= 8 ==> n.cursor + 3 < followed(n).scroll + n.viewport_hint,
        n.viewport_hint < 8 ==> n.cursor + 3 < followed(n).scroll + 8,
        followed(n).scroll == 0 || n.cursor >= followed(n).scroll + 3,
        n.scroll + 3 <= n.cursor && n.cursor + 3 < n.scroll + 8 ==> followed(n).scroll == n.scroll,
        followed(n).selected_group == n.selected_group,
        followed(n).focus == n.focus,
        followed(n).mode == n.mode,
{
}

/// No row between two places can be selected.
pub open spec fn none_between(rows: Seq<Row>, a: int, b: int) -> bool {
    forall|i: int| a < i < b && 0 <= i < rows.len() ==> !(#[trigger] rows[i]).kind.can_select()
}

/// A step goes to the nearest row in its direction that can be selected, over none, and
/// nowhere where there is none.
pub proof fn law_a_step_goes_to_the_nearest_row(n: Nav, rows: Seq<Row>)
    requires
        rows.len() <= usize::MAX,
        n.cursor < rows.len(),
    ensures
        ({
            let c = moved(n, rows, true).cursor;
            ||| c == n.cursor && none_between(rows, n.cursor as int, rows.len() as int)
            ||| n.cursor < c < rows.len() && rows[c as int].kind.can_select() && none_between(
                rows,
                n.cursor as int,
                c as int,
            )
        }),
        n.cursor > 0 ==> ({
            let c = moved(n, rows, false).cursor;
            ||| c == n.cursor && none_between(rows, -1, n.cursor as int)
            ||| c < n.cursor && rows[c as int].kind.can_select() && none_between(
                rows,
                c as int,
                n.cursor as int,
            )
        }),
{
    lemma_next_is_nearest(rows, n.cursor + 1);
    lemma_next_row(rows, n.cursor + 1);
    if n.cursor > 0 {
        lemma_last_is_nearest(rows, n.cursor - 1);
        lemma_last_row(rows, n.cursor - 1);
    }
}

proof fn lemma_next_is_nearest(rows: Seq<Row>, from: int)
    requires
        0 <= from,
    ensures
        match next_row(rows, from) {
            Some(i) => none_between(rows, from - 1, i),
            None => none_between(rows, from - 1, rows.len() as int),
        },
    decreases rows.len() - from,
{
    if from < rows.len() && !rows[from].kind.can_select() {
        lemma_next_is_nearest(rows, from + 1);
    }
}

proof fn lemma_last_is_nearest(rows: Seq<Row>, from: int)
    requires
        from < rows.len(),
    ensures
        match last_row(rows, from) {
            Some(i) => none_between(rows, i, from + 1),
            None => none_between(rows, -1, from + 1),
        },
    decreases from + 1,
{
    if 0 <= from && !rows[from].kind.can_select() {
        lemma_last_is_nearest(rows, from - 1);
    }
}

/// Going to another group goes one on, or one back, as far as there are groups, and
/// starts at the top.
pub proof fn law_another_group_is_the_next_one(n: Nav, groups: nat)
    requires
        0 < groups <= usize::MAX,
        n.selected_group < groups,
    ensures
        n.selected_group + 1 < groups ==> grouped(n, groups, true).0.selected_group
            == n.selected_group + 1,
        n.selected_group + 1 == groups ==> grouped(n, groups, true).0.selected_group
            == n.selected_group,
        n.selected_group > 0 ==> grouped(n, groups, false).0.selected_group == n.selected_group - 1,
        n.selected_group == 0 ==> grouped(n, groups, false).0.selected_group == 0,
        grouped(n, groups, true).0.cursor == 0,
        grouped(n, groups, false).0.cursor == 0,
        grouped(n, groups, true).0.scroll == 0,
        grouped(n, groups, false).0.scroll == 0,
{
}

/// The selected group is in the left pane, which is moved no further than it must.
pub proof fn law_the_selected_group_is_in_its_pane(n: Nav, height: usize)
    requires
        height > 0,
    ensures
        groups_scrolled(n, height).group_scroll <= n.selected_group,
        n.selected_group < groups_scrolled(n, height).group_scroll + height,
        n.group_scroll <= n.selected_group < n.group_scroll + height ==> groups_scrolled(
            n,
            height,
        ).group_scroll == n.group_scroll,
        groups_scrolled(n, height).cursor == n.cursor,
{
}

} // verus!
