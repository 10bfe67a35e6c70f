//! Lines of a diff, side by side.
use vstd::prelude::*;

use crate::text::{chars_of, spaces, string_of};

verus! {

/// A text with each tab filled up with spaces to the next multiple of a width. A
/// width of 0 drops the tabs.
pub open spec fn expanded(s: Seq<char>, width: nat) -> Seq<char>
    decreases s.len(),
{
    if s.len() == 0 {
        Seq::empty()
    } else {
        let before = expanded(s.drop_last(), width);
        if s.last() != '\t' {
            before.push(s.last())
        } else if width == 0 {
            before
        } else {
            before + spaces((width - before.len() % width) as nat)
        }
    }
}

/// Fill each tab up with spaces.
pub fn expand_tabs(s: &str, tab_width: usize) -> (r: String)
    ensures
        r@ == expanded(s@, tab_width as nat),
{
    let cs = chars_of(s);
    let mut out: Vec<char> = Vec::new();
    assert(cs@.take(0) =~= Seq::<char>::empty());
    for i in 0..cs.len()
        invariant
            out@ == expanded(cs@.take(i as int), tab_width as nat),
    {
        let c = cs[i];
        assert(cs@.take(i + 1).drop_last() =~= cs@.take(i as int));
        if c != '\t' {
            out.push(c);
        } else if tab_width > 0 {
            let ghost had = out@;
            let n: usize = tab_width - out.len() % tab_width;
            for k in 0..n
                invariant
                    out@ == had + spaces(k as nat),
            {
                out.push(' ');
                assert(out@ =~= had + spaces((k + 1) as nat));
            }
            assert(had + spaces(n as nat) == expanded(cs@.take(i + 1), tab_width as nat));
        }
    }
    assert(cs@.take(cs@.len() as int) =~= cs@);
    string_of(out.as_slice())
}

/// A piece of a line; an emphasized one is a changed word.
#[derive(Debug, Clone, PartialEq, Eq)]
pub struct InlineSegment {
    pub text: String,
    pub emphasized: bool,
}

/// How a line changed.
#[derive(Debug, Clone, Copy, PartialEq, Eq, Structural)]
pub enum ChangeType {
    Equal,
    Delete,
    Insert,
    /// A deletion and an insertion, shown on one row.
    Modified,
}

/// One row of two sides.
#[derive(Debug, Clone)]
pub struct DiffLine {
    pub old_line: Option<(usize, String)>,
    pub new_line: Option<(usize, String)>,
    pub change_type: ChangeType,
    /// Word-level pieces of the old line (of a modified row only).
    pub old_segments: Option<Vec<InlineSegment>>,
    /// Word-level pieces of the new line (of a modified row only).
    pub new_segments: Option<Vec<InlineSegment>>,
}

/// Which side of a diff a shown line belongs to.
#[derive(Debug, Clone, Copy, PartialEq, Eq, Structural)]
pub enum LineOrigin {
    Context,
    Addition,
    Deletion,
}

/// The line ranges of a hunk, as its header gives them.
#[derive(Debug, Clone, Copy, PartialEq, Eq, Structural)]
pub struct Span {
    pub old_start: u32,
    pub old_count: u32,
    pub new_start: u32,
    pub new_count: u32,
}

/// The numbered lines that rows show on one side, in order.
pub open spec fn side_lines(rows: Seq<DiffLine>, old: bool) -> Seq<(usize, Seq<char>)>
    decreases rows.len(),
{
    if rows.len() == 0 {
        Seq::empty()
    } else {
        let before = side_lines(rows.drop_last(), old);
        let line = if old {
            rows.last().old_line
        } else {
            rows.last().new_line
        };
        match line {
            Some(l) => before.push((l.0, l.1@)),
            None => before,
        }
    }
}

/// The first `n` lines of a text, numbered from 1.
pub open spec fn numbered_lines(lines: Seq<String>, n: nat) -> Seq<(usize, Seq<char>)> {
    Seq::new(n, |i: int| ((i + 1) as usize, lines[i]@))
}

/// Whether rows show the first `o` old lines and the first `n` new ones.
pub open spec fn shows_lines(
    rows: Seq<DiffLine>,
    old: Seq<String>,
    new: Seq<String>,
    o: nat,
    n: nat,
) -> bool {
    side_lines(rows, true) == numbered_lines(old, o) && side_lines(rows, false) == numbered_lines(
        new,
        n,
    )
}

/// The pieces of a line, each with whether it is emphasized.
pub type PiecesView = Option<Seq<(Seq<char>, bool)>>;

/// A row by its lines, its kind, and the word-level pieces of each line.
pub type RowView = (
    Option<(usize, Seq<char>)>,
    Option<(usize, Seq<char>)>,
    ChangeType,
    PiecesView,
    PiecesView,
);

/// What the pieces of a line show.
pub open spec fn pieces_view(pieces: Option<Vec<InlineSegment>>) -> PiecesView {
    match pieces {
        Some(v) => Some(Seq::new(v@.len(), |i: int| (v@[i].text@, v@[i].emphasized))),
        None => None,
    }
}

/// What a row shows.
pub open spec fn row_view(row: DiffLine) -> RowView {
    (
        match row.old_line {
            Some(l) => Some((l.0, l.1@)),
            None => None,
        },
        match row.new_line {
            Some(l) => Some((l.0, l.1@)),
            None => None,
        },
        row.change_type,
        pieces_view(row.old_segments),
        pieces_view(row.new_segments),
    )
}

/// What each row shows.
pub open spec fn are_rows(rows: Seq<DiffLine>, views: Seq<RowView>) -> bool {
    rows.len() == views.len() && forall|i: int|
        0 <= i < rows.len() ==> row_view(#[trigger] rows[i]) == views[i]
}

/// The line at a place, with its number.
pub open spec fn line_at(lines: Seq<String>, at: int, end: int) -> Option<(usize, Seq<char>)> {
    if at < end {
        Some(((at + 1) as usize, lines[at]@))
    } else {
        None
    }
}

/// One row of a region: a pair as long as both sides have lines left, else the line
/// of the one side that has. It shows whole lines, not pieces of them.
pub open spec fn region_row(
    left: Seq<String>,
    right: Seq<String>,
    from: (int, int),
    to: (int, int),
    paired: ChangeType,
    k: int,
) -> RowView {
    (
        line_at(left, from.0 + k, to.0),
        line_at(right, from.1 + k, to.1),
        if from.0 + k < to.0 && from.1 + k < to.1 {
            paired
        } else if from.0 + k < to.0 {
            ChangeType::Delete
        } else {
            ChangeType::Insert
        },
        None,
        None,
    )
}

/// The rows of a region: as many as its longer side has lines.
pub open spec fn region(
    left: Seq<String>,
    right: Seq<String>,
    from: (int, int),
    to: (int, int),
    paired: ChangeType,
) -> Seq<RowView> {
    let n = if to.0 - from.0 < to.1 - from.1 {
        to.1 - from.1
    } else {
        to.0 - from.0
    };
    Seq::new(n as nat, |k: int| region_row(left, right, from, to, paired, k))
}

/// A number within bounds.
pub open spec fn bounded(n: int, least: int, most: int) -> int {
    if n < least {
        least
    } else if n > most {
        most
    } else {
        n
    }
}

/// Where the lines of one side of a hunk begin: a side without lines stands behind
/// the line that its header names.
pub open spec fn start_of(start: u32, count: u32) -> int {
    if count == 0 || start == 0 {
        start as int
    } else {
        start - 1
    }
}

/// Where a hunk begins on both sides, not before a place and within the lines.
pub open spec fn begins(s: Span, at: (int, int), ends: (int, int)) -> (int, int) {
    (
        bounded(start_of(s.old_start, s.old_count), at.0, ends.0),
        bounded(start_of(s.new_start, s.new_count), at.1, ends.1),
    )
}

/// Where a hunk that begins at a place ends, within the lines.
pub open spec fn finishes(s: Span, first: (int, int), ends: (int, int)) -> (int, int) {
    (
        bounded(first.0 + s.old_count, first.0, ends.0),
        bounded(first.1 + s.new_count, first.1, ends.1),
    )
}

/// The place behind the first `k` hunks.
pub open spec fn reached(spans: Seq<Span>, ends: (int, int), k: int) -> (int, int)
    decreases k,
{
    if k <= 0 {
        (0, 0)
    } else {
        let at = reached(spans, ends, k - 1);
        finishes(spans[k - 1], begins(spans[k - 1], at, ends), ends)
    }
}

/// The rows up to the end of the first `k` hunks.
pub open spec fn rows_until(
    left: Seq<String>,
    right: Seq<String>,
    spans: Seq<Span>,
    k: int,
) -> Seq<RowView>
    decreases k,
{
    if k <= 0 {
        Seq::empty()
    } else {
        let ends = (left.len() as int, right.len() as int);
        let at = reached(spans, ends, k - 1);
        let first = begins(spans[k - 1], at, ends);
        let last = finishes(spans[k - 1], first, ends);
        rows_until(left, right, spans, k - 1) + region(left, right, at, first, ChangeType::Equal)
            + region(left, right, first, last, ChangeType::Modified)
    }
}

/// The rows of a file with the given hunks.
pub open spec fn rows_of(left: Seq<String>, right: Seq<String>, spans: Seq<Span>) -> Seq<RowView> {
    let ends = (left.len() as int, right.len() as int);
    rows_until(left, right, spans, spans.len() as int) + region(
        left,
        right,
        reached(spans, ends, spans.len() as int),
        ends,
        ChangeType::Equal,
    )
}

/// Add a row with the next line of each side that is asked for.
fn push_lines(
    rows: &mut Vec<DiffLine>,
    left: &Vec<String>,
    right: &Vec<String>,
    o: usize,
    n: usize,
    with_old: bool,
    with_new: bool,
    change_type: ChangeType,
)
    requires
        shows_lines(old(rows)@, left@, right@, o as nat, n as nat),
        with_old ==> o < left@.len(),
        with_new ==> n < right@.len(),
    ensures
        shows_lines(
            final(rows)@,
            left@,
            right@,
            if with_old {
                (o + 1) as nat
            } else {
                o as nat
            },
            if with_new {
                (n + 1) as nat
            } else {
                n as nat
            },
        ),
        forall|views: Seq<RowView>, view: RowView|
            are_rows(old(rows)@, views) && view == (
                if with_old {
                    Some(((o + 1) as usize, left@[o as int]@))
                } else {
                    None
                },
                if with_new {
                    Some(((n + 1) as usize, right@[n as int]@))
                } else {
                    None
                },
                change_type,
                None::<Seq<(Seq<char>, bool)>>,
                None::<Seq<(Seq<char>, bool)>>,
            ) ==> are_rows(final(rows)@, #[trigger] views.push(view)),
{
    let old_line = if with_old {
        assert(o < left.len());
        Some((o + 1, left[o].clone()))
    } else {
        None
    };
    let new_line = if with_new {
        assert(n < right.len());
        Some((n + 1, right[n].clone()))
    } else {
        None
    };
    let ghost was = rows@;
    rows.push(DiffLine { old_line, new_line, change_type, old_segments: None, new_segments: None });
    proof {
        assert(rows@.drop_last() =~= was);
        if with_old {
            assert(side_lines(rows@, true) =~= numbered_lines(left@, (o + 1) as nat));
        }
        if with_new {
            assert(side_lines(rows@, false) =~= numbered_lines(right@, (n + 1) as nat));
        }
    }
}

/// Show lines up to a place on each side: as pairs as long as both sides have lines
/// left, then one side alone.
fn push_region(
    rows: &mut Vec<DiffLine>,
    left: &Vec<String>,
    right: &Vec<String>,
    from: (usize, usize),
    to: (usize, usize),
    paired: ChangeType,
)
    requires
        shows_lines(old(rows)@, left@, right@, from.0 as nat, from.1 as nat),
        from.0 <= to.0 <= left@.len(),
        from.1 <= to.1 <= right@.len(),
    ensures
        shows_lines(final(rows)@, left@, right@, to.0 as nat, to.1 as nat),
        forall|views: Seq<RowView>|
            are_rows(old(rows)@, views) ==> are_rows(
                final(rows)@,
                #[trigger] (views + region(
                    left@,
                    right@,
                    (from.0 as int, from.1 as int),
                    (to.0 as int, to.1 as int),
                    paired,
                )),
            ),
{
    let mut o: usize = from.0;
    let mut n: usize = from.1;
    let ghost all = region(
        left@,
        right@,
        (from.0 as int, from.1 as int),
        (to.0 as int, to.1 as int),
        paired,
    );
    let ghost mut k: int = 0;
    proof {
        assert forall|views: Seq<RowView>| are_rows(old(rows)@, views) implies are_rows(
            rows@,
            #[trigger] (views + all.take(0)),
        ) by {
            assert(views + all.take(0) =~= views);
        }
    }
    while o < to.0 || n < to.1
        invariant
            shows_lines(rows@, left@, right@, o as nat, n as nat),
            from.0 <= o <= to.0 <= left@.len(),
            from.1 <= n <= to.1 <= right@.len(),
            all == region(
                left@,
                right@,
                (from.0 as int, from.1 as int),
                (to.0 as int, to.1 as int),
                paired,
            ),
            0 <= k <= all.len(),
            o == bounded(from.0 + k, 0, to.0 as int),
            n == bounded(from.1 + k, 0, to.1 as int),
            forall|views: Seq<RowView>|
                are_rows(old(rows)@, views) ==> are_rows(rows@, #[trigger] (views + all.take(k))),
        decreases to.0 - o + to.1 - n,
    {
        let with_old = o < to.0;
        let with_new = n < to.1;
        let change_type = if with_old && with_new {
            paired
        } else if with_old {
            ChangeType::Delete
        } else {
            ChangeType::Insert
        };
        push_lines(rows, left, right, o, n, with_old, with_new, change_type);
        proof {
            assert forall|views: Seq<RowView>| are_rows(old(rows)@, views) implies are_rows(
                rows@,
                #[trigger] (views + all.take(k + 1)),
            ) by {
                let next = (views + all.take(k)).push(all[k]);
                assert(views + all.take(k + 1) =~= next);
            }
            k = k + 1;
        }
        if with_old {
            o = o + 1;
        }
        if with_new {
            n = n + 1;
        }
    }
    assert(all.take(k) =~= all);
}

/// A line number as a place, within the lines that there are and not before
/// another place.
fn place(start: u32, count: u32, least: usize, most: usize) -> (r: usize)
    requires
        least <= most,
    ensures
        r == bounded(start_of(start, count), least as int, most as int),
{
    let at: u64 = if count == 0 || start == 0 {
        start as u64
    } else {
        start as u64 - 1
    };
    if at < least as u64 {
        least
    } else if at > most as u64 {
        most
    } else {
        at as usize
    }
}

/// The place behind a number of lines, within the lines that there are.
fn advance(first: usize, count: u32, most: usize) -> (r: usize)
    requires
        first <= most,
    ensures
        r == bounded(first + count, first as int, most as int),
{
    if (most - first) as u64 >= count as u64 {
        first + count as usize
    } else {
        most
    }
}

/// The lines of a file, side by side: unchanged ones in pairs, the lines of a hunk as
/// modified rows as far as both sides have one, and as removals or additions beyond
/// that. Every line of both sides is shown once, in order.
pub fn side_by_side(left: &Vec<String>, right: &Vec<String>, spans: &Vec<Span>) -> (r: Vec<DiffLine>)
    ensures
        are_rows(r@, rows_of(left@, right@, spans@)),
        shows_lines(r@, left@, right@, left@.len(), right@.len()),
{
    let mut rows: Vec<DiffLine> = Vec::new();
    assert(side_lines(rows@, true) =~= numbered_lines(left@, 0));
    assert(side_lines(rows@, false) =~= numbered_lines(right@, 0));
    let mut at: (usize, usize) = (0, 0);
    let ghost ends = (left@.len() as int, right@.len() as int);
    for k in 0..spans.len()
        invariant
            ends == (left@.len() as int, right@.len() as int),
            at.0 <= left@.len(),
            at.1 <= right@.len(),
            (at.0 as int, at.1 as int) == reached(spans@, ends, k as int),
            are_rows(rows@, rows_until(left@, right@, spans@, k as int)),
            shows_lines(rows@, left@, right@, at.0 as nat, at.1 as nat),
    {
        let s = spans[k];
        let first = (
            place(s.old_start, s.old_count, at.0, left.len()),
            place(s.new_start, s.new_count, at.1, right.len()),
        );
        push_region(&mut rows, left, right, at, first, ChangeType::Equal);
        let last = (
            advance(first.0, s.old_count, left.len()),
            advance(first.1, s.new_count, right.len()),
        );
        push_region(&mut rows, left, right, first, last, ChangeType::Modified);
        at = last;
    }
    push_region(&mut rows, left, right, at, (left.len(), right.len()), ChangeType::Equal);
    rows
}

/// No tab is left. Every other character stays; a tab ends at the next stop, which is a
/// multiple of the width.
pub proof fn law_a_tab_ends_at_a_stop(s: Seq<char>, c: char, width: nat)
    requires
        width > 0,
    ensures
        c != '\t' ==> expanded(s.push(c), width) == expanded(s, width).push(c),
        c == '\t' ==> {
            let (a, b) = (expanded(s, width), expanded(s.push(c), width));
            &&& b.len() % width == 0
            &&& a.len() < b.len() <= a.len() + width
            &&& b.take(a.len() as int) == a
            &&& forall|i: int| a.len() <= i < b.len() ==> #[trigger] b[i] == ' '
        },
        !expanded(s, width).contains('\t'),
{
    let t = s.push(c);
    assert(t.drop_last() =~= s);
    let a = expanded(s, width);
    if c == '\t' {
        let b = expanded(t, width);
        let n = (width - a.len() % width) as nat;
        assert(b == a + spaces(n));
        assert(b.take(a.len() as int) =~= a);
        let q = (a.len() / width) as int;
        vstd::arithmetic::div_mod::lemma_fundamental_div_mod(a.len() as int, width as int);
        assert(b.len() == width * (q + 1)) by (nonlinear_arith)
            requires
                a.len() == width * q + a.len() % width,
                b.len() == a.len() + (width - a.len() % width),
        ;
        vstd::arithmetic::div_mod::lemma_mod_multiples_basic(q + 1, width as int);
        assert(width * (q + 1) == (q + 1) * width) by (nonlinear_arith);
        vstd::arithmetic::div_mod::lemma_mod_bound(a.len() as int, width as int);
    }
    lemma_no_tab(s, width);
}

proof fn lemma_no_tab(s: Seq<char>, width: nat)
    ensures
        forall|i: int| 0 <= i < expanded(s, width).len() ==> #[trigger] expanded(s, width)[i] != '\t',
    decreases s.len(),
{
    if s.len() > 0 {
        lemma_no_tab(s.drop_last(), width);
        let before = expanded(s.drop_last(), width);
        let all = expanded(s, width);
        assert forall|i: int| 0 <= i < all.len() implies #[trigger] all[i] != '\t' by {
            if i < before.len() {
                assert(all[i] == before[i]);
            }
        }
    }
}

} // verus!
