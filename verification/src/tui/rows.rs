//! The single row builder: the row kinds are the output of the builder that makes
//! the lines, so navigation and drawing can never disagree about what a row is.
use vstd::prelude::*;
use vstd::utf8::encode_utf8;

use super::diff::{ChangeType, DiffLine, InlineSegment, LineOrigin};
use crate::plan::ids::{groups_of, group_ok, numbers, HunkId, PlanIndex};
use crate::plan::tiers::{deferred, reading_split, shown, Fold};
use crate::plan::{effort_name, effort_text, first_file, first_file_place};
use crate::review_state::Finding;
use crate::schema::{
    find_group, group_names, last_pos, Effort, FileEntry, Group, HunkEntry, PlanDocument, Role,
};
use crate::seqs::{
    chars_lt, is_order, lemma_chars_order, lemma_perm_multiset, lemma_stable_exists, stable_before,
    stable_order, stable_perm, str_less, texts,
};
use crate::text::{
    decimal, join_strings, join_with, lines, lines_of, push_decimal, push_str, spaces, str_eq,
};

verus! {

/// How many unchanged lines stand round a hunk.
pub const CONTEXT: usize = 3;

/// How wide a tab is.
pub const TAB_WIDTH: usize = 4;

/// What a row is.
#[derive(Debug, Clone, PartialEq, Eq)]
pub enum RowKind {
    GroupHeader,
    /// A file header carrying its path.
    FileHeader(String),
    /// Canonical hunk index.
    HunkHeader(usize),
    /// A diff content row belonging to a hunk.
    Diff(usize),
    /// A finding attached to a hunk: (finding id, hunk index).
    Finding(String, usize),
    /// Collapsed remainder or noise.
    Fold,
    Blank,
}

/// What a row is, over texts.
pub enum KindView {
    GroupHeader,
    FileHeader(Seq<char>),
    HunkHeader(usize),
    Diff(usize),
    Finding(Seq<char>, usize),
    Fold,
    Blank,
}

pub open spec fn kind_view(k: RowKind) -> KindView {
    match k {
        RowKind::GroupHeader => KindView::GroupHeader,
        RowKind::FileHeader(p) => KindView::FileHeader(p@),
        RowKind::HunkHeader(h) => KindView::HunkHeader(h),
        RowKind::Diff(h) => KindView::Diff(h),
        RowKind::Finding(id, h) => KindView::Finding(id@, h),
        RowKind::Fold => KindView::Fold,
        RowKind::Blank => KindView::Blank,
    }
}

impl RowKind {
    /// Whether the cursor can stand on the row.
    pub open spec fn can_select(&self) -> bool {
        self is HunkHeader || self is Diff || self is Finding || self is Fold
    }

    /// Whether the cursor can stand on the row.
    pub fn selectable(&self) -> (r: bool)
        ensures
            r == self.can_select(),
    {
        match self {
            RowKind::HunkHeader(_)
            | RowKind::Diff(_)
            | RowKind::Finding(_, _)
            | RowKind::Fold => true,
            _ => false,
        }
    }

    /// The hunk that the row belongs to.
    pub open spec fn hunk_of(&self) -> Option<usize> {
        match *self {
            RowKind::HunkHeader(h) => Some(h),
            RowKind::Diff(h) => Some(h),
            RowKind::Finding(_, h) => Some(h),
            _ => None,
        }
    }

    /// The hunk that the row belongs to.
    pub fn hunk(&self) -> (r: Option<usize>)
        ensures
            r == self.hunk_of(),
    {
        match self {
            RowKind::HunkHeader(h) => Some(*h),
            RowKind::Diff(h) => Some(*h),
            RowKind::Finding(_, h) => Some(*h),
            _ => None,
        }
    }
}

/// Diff-pane layout. Split rows carry both sides; the columns are composed when they
/// are drawn, so row counts never depend on the width.
#[derive(Debug, Clone, Copy, PartialEq, Eq, Structural)]
pub enum DiffMode {
    Unified,
    Split,
}

/// What a piece of text is, for the one who colours it.
#[derive(Debug, Clone, Copy, PartialEq, Eq, Structural)]
pub enum Tone {
    Tier(Effort),
    Label,
    Gutter,
    Context,
    Noise,
    FileHeader,
    Hunk,
    Reviewed,
    Finding,
    Plain,
}

/// A piece of a line.
#[derive(Debug, Clone, PartialEq, Eq)]
pub struct Piece {
    pub tone: Tone,
    pub text: String,
}

pub open spec fn piece_view(p: Piece) -> (Tone, Seq<char>) {
    (p.tone, p.text@)
}

pub open spec fn piece_views(ps: Seq<Piece>) -> Seq<(Tone, Seq<char>)> {
    ps.map_values(|p: Piece| piece_view(p))
}

/// One line of code with its gutter. Colours of the code itself are the renderer's;
/// `emphasis` lists the byte ranges of the changed words.
#[derive(Debug, Clone, PartialEq, Eq)]
pub struct CodeLine {
    pub gutter: String,
    pub text: String,
    pub origin: LineOrigin,
    pub lineno: usize,
    pub emphasis: Vec<(usize, usize)>,
}

pub struct CodeView {
    pub gutter: Seq<char>,
    pub text: Seq<char>,
    pub origin: LineOrigin,
    pub lineno: usize,
    pub emphasis: Seq<(usize, usize)>,
}

pub open spec fn code_view(c: CodeLine) -> CodeView {
    CodeView {
        gutter: c.gutter@,
        text: c.text@,
        origin: c.origin,
        lineno: c.lineno,
        emphasis: c.emphasis@,
    }
}

pub open spec fn half_view(c: Option<CodeLine>) -> Option<CodeView> {
    match c {
        Some(c) => Some(code_view(c)),
        None => None,
    }
}

/// What a row shows.
#[derive(Debug, Clone, PartialEq, Eq)]
pub enum RowContent {
    Full(Vec<Piece>),
    Unified(CodeLine),
    Split { old: Option<CodeLine>, new: Option<CodeLine> },
}

pub enum ContentView {
    Full(Seq<(Tone, Seq<char>)>),
    Unified(CodeView),
    Split(Option<CodeView>, Option<CodeView>),
}

pub open spec fn content_view(c: RowContent) -> ContentView {
    match c {
        RowContent::Full(ps) => ContentView::Full(piece_views(ps@)),
        RowContent::Unified(l) => ContentView::Unified(code_view(l)),
        RowContent::Split { old, new } => ContentView::Split(half_view(old), half_view(new)),
    }
}

/// A row of the right pane.
#[derive(Debug, Clone, PartialEq, Eq)]
pub struct Row {
    pub kind: RowKind,
    pub content: RowContent,
}

pub struct RowView {
    pub kind: KindView,
    pub content: ContentView,
}

pub open spec fn row_view(r: Row) -> RowView {
    RowView { kind: kind_view(r.kind), content: content_view(r.content) }
}

pub open spec fn row_views(rs: Seq<Row>) -> Seq<RowView> {
    rs.map_values(|r: Row| row_view(r))
}

/// A row of one piece.
pub open spec fn one(kind: KindView, tone: Tone, text: Seq<char>) -> RowView {
    RowView { kind, content: ContentView::Full(seq![(tone, text)]) }
}

/// An empty row.
pub open spec fn blank() -> RowView {
    RowView { kind: KindView::Blank, content: ContentView::Full(Seq::empty()) }
}

impl Row {
    /// A row of one piece.
    pub fn full(kind: RowKind, tone: Tone, text: String) -> (r: Self)
        ensures
            row_view(r) == one(kind_view(kind), tone, text@),
    {
        let mut ps: Vec<Piece> = Vec::new();
        ps.push(Piece { tone, text });
        assert(piece_views(ps@) =~= seq![(tone, text@)]);
        Row { kind, content: RowContent::Full(ps) }
    }

    /// An empty row.
    pub fn blank() -> (r: Self)
        ensures
            row_view(r) == blank(),
    {
        let ps: Vec<Piece> = Vec::new();
        assert(piece_views(ps@) =~= Seq::empty());
        Row { kind: RowKind::Blank, content: RowContent::Full(ps) }
    }
}

fn push_row(rows: &mut Vec<Row>, row: Row)
    ensures
        row_views(final(rows)@) == row_views(old(rows)@).push(row_view(row)),
{
    let ghost had = row_views(rows@);
    rows.push(row);
    assert(row_views(rows@) =~= had.push(row_view(row)));
}

// ---------------------------------------------------------------------------
// Lines of code

/// A text with spaces before it, up to a width.
pub open spec fn aligned(s: Seq<char>, width: nat) -> Seq<char> {
    if s.len() >= width {
        s
    } else {
        spaces((width - s.len()) as nat) + s
    }
}

/// A line number in a gutter: blank where there is none.
pub open spec fn number_text(n: Option<usize>) -> Seq<char> {
    aligned(
        match n {
            Some(k) => decimal(k as nat),
            None => Seq::empty(),
        },
        4,
    )
}

fn number_string(n: Option<usize>) -> (r: String)
    ensures
        r@ == number_text(n),
{
    let mut digits = String::new();
    if let Some(k) = n {
        push_decimal(&mut digits, k as u64);
        assert(digits@ =~= decimal(k as nat));
    }
    let ghost text = match n {
        Some(k) => decimal(k as nat),
        None => Seq::<char>::empty(),
    };
    assert(digits@ =~= text);
    let cs = crate::text::chars_of(&digits);
    if cs.len() >= 4 {
        return digits;
    }
    let mut out = String::new();
    let missing: usize = 4 - cs.len();
    for i in 0..missing
        invariant
            out@ == spaces(i as nat),
    {
        out.push(' ');
        assert(out@ =~= spaces((i + 1) as nat));
    }
    push_str(&mut out, &digits);
    out
}

/// The gutter of a unified row.
pub open spec fn wide_gutter(old: Option<usize>, new: Option<usize>, marker: char) -> Seq<char> {
    number_text(old) + " "@ + number_text(new) + " "@ + seq![marker] + " "@
}

/// The gutter of one half of a split row.
pub open spec fn half_gutter(n: usize, marker: char) -> Seq<char> {
    number_text(Some(n)) + " "@ + seq![marker] + " "@
}

/// A byte offset moved on, as far as there are offsets.
pub open spec fn moved_on(off: usize, bytes: nat) -> usize {
    if off + bytes > usize::MAX {
        usize::MAX
    } else {
        (off + bytes) as usize
    }
}

/// Where the first `k` segments end, in bytes.
pub open spec fn segments_end(segs: Seq<InlineSegment>, k: nat) -> usize
    decreases k,
{
    if k == 0 {
        0
    } else {
        moved_on(segments_end(segs, (k - 1) as nat), encode_utf8(segs[k - 1].text@).len())
    }
}

/// The byte ranges of the emphasized ones of the first `k` segments.
pub open spec fn emphasized(segs: Seq<InlineSegment>, k: nat) -> Seq<(usize, usize)>
    decreases k,
{
    if k == 0 {
        Seq::empty()
    } else {
        let before = emphasized(segs, (k - 1) as nat);
        if segs[k - 1].emphasized {
            before.push((segments_end(segs, (k - 1) as nat), segments_end(segs, k)))
        } else {
            before
        }
    }
}

/// The byte ranges of the changed words of a line.
pub open spec fn emphasis_of(segs: Option<Vec<InlineSegment>>) -> Seq<(usize, usize)> {
    match segs {
        Some(s) => emphasized(s@, s@.len()),
        None => Seq::empty(),
    }
}

fn emphasis(segs: &Option<Vec<InlineSegment>>) -> (r: Vec<(usize, usize)>)
    ensures
        r@ == emphasis_of(*segs),
{
    let mut out: Vec<(usize, usize)> = Vec::new();
    if let Some(s) = segs {
        let mut off: usize = 0;
        for i in 0..s.len()
            invariant
                off == segments_end(s@, i as nat),
                out@ == emphasized(s@, i as nat),
        {
            let bytes: usize = s[i].text.as_str().as_bytes().len();
            let end: usize = off.saturating_add(bytes);
            assert(end == moved_on(off, encode_utf8(s@[i as int].text@).len()));
            if s[i].emphasized {
                out.push((off, end));
            }
            off = end;
        }
    }
    out
}

/// A line of a unified row.
pub open spec fn side_view(
    old: Option<usize>,
    new: Option<usize>,
    marker: char,
    line: (usize, String),
    origin: LineOrigin,
    segs: Option<Vec<InlineSegment>>,
) -> CodeView {
    CodeView {
        gutter: wide_gutter(old, new, marker),
        text: line.1@,
        origin,
        lineno: line.0,
        emphasis: emphasis_of(segs),
    }
}

fn side_line(
    old: Option<usize>,
    new: Option<usize>,
    marker: char,
    line: &(usize, String),
    origin: LineOrigin,
    segs: &Option<Vec<InlineSegment>>,
) -> (r: CodeLine)
    ensures
        code_view(r) == side_view(old, new, marker, *line, origin, *segs),
{
    let mut gutter = number_string(old);
    push_str(&mut gutter, " ");
    push_str(&mut gutter, &number_string(new));
    push_str(&mut gutter, " ");
    gutter.push(marker);
    push_str(&mut gutter, " ");
    assert(gutter@ =~= wide_gutter(old, new, marker));
    CodeLine { gutter, text: line.1.clone(), origin, lineno: line.0, emphasis: emphasis(segs) }
}

/// One half of a split row.
pub open spec fn half_of(
    line: Option<(usize, String)>,
    equal: bool,
    marker: char,
    origin: LineOrigin,
    segs: Option<Vec<InlineSegment>>,
) -> Option<CodeView> {
    match line {
        None => None,
        Some(l) => Some(
            CodeView {
                gutter: half_gutter(
                    l.0,
                    if equal {
                        ' '
                    } else {
                        marker
                    },
                ),
                text: l.1@,
                origin: if equal {
                    LineOrigin::Context
                } else {
                    origin
                },
                lineno: l.0,
                emphasis: if equal {
                    Seq::empty()
                } else {
                    emphasis_of(segs)
                },
            },
        ),
    }
}

fn half(
    line: &Option<(usize, String)>,
    equal: bool,
    marker: char,
    origin: LineOrigin,
    segs: &Option<Vec<InlineSegment>>,
) -> (r: Option<CodeLine>)
    ensures
        half_view(r) == half_of(*line, equal, marker, origin, *segs),
{
    match line {
        None => None,
        Some(l) => {
            let mark = if equal {
                ' '
            } else {
                marker
            };
            let mut gutter = number_string(Some(l.0));
            push_str(&mut gutter, " ");
            gutter.push(mark);
            push_str(&mut gutter, " ");
            assert(gutter@ =~= half_gutter(l.0, mark));
            let ranges = if equal {
                let none: Vec<(usize, usize)> = Vec::new();
                assert(none@ =~= Seq::empty());
                none
            } else {
                emphasis(segs)
            };
            Some(
                CodeLine {
                    gutter,
                    text: l.1.clone(),
                    origin: if equal {
                        LineOrigin::Context
                    } else {
                        origin
                    },
                    lineno: l.0,
                    emphasis: ranges,
                },
            )
        },
    }
}

/// The number of a line that may not be there, 0 then.
pub open spec fn number_or_zero(line: Option<(usize, String)>) -> usize {
    match line {
        Some(l) => l.0,
        None => 0,
    }
}

/// The rows of one line of a diff. Unified: one or two lines, a modified one as a
/// removal and then an addition. Split: exactly one row with both sides.
pub open spec fn diff_contents(l: DiffLine, mode: DiffMode) -> Seq<ContentView> {
    if mode == DiffMode::Split {
        let equal = l.change_type == ChangeType::Equal;
        seq![
            ContentView::Split(
                half_of(l.old_line, equal, '-', LineOrigin::Deletion, l.old_segments),
                half_of(l.new_line, equal, '+', LineOrigin::Addition, l.new_segments),
            ),
        ]
    } else {
        match l.change_type {
            ChangeType::Equal => match l.new_line {
                Some(n) => seq![
                    ContentView::Unified(
                        side_view(
                            Some(number_or_zero(l.old_line)),
                            Some(n.0),
                            ' ',
                            n,
                            LineOrigin::Context,
                            None,
                        ),
                    ),
                ],
                None => Seq::empty(),
            },
            ChangeType::Delete => removed_content(l),
            ChangeType::Insert => added_content(l),
            ChangeType::Modified => removed_content(l) + added_content(l),
        }
    }
}

pub open spec fn removed_content(l: DiffLine) -> Seq<ContentView> {
    match l.old_line {
        Some(n) => seq![
            ContentView::Unified(
                side_view(Some(n.0), None, '-', n, LineOrigin::Deletion, l.old_segments),
            ),
        ],
        None => Seq::empty(),
    }
}

pub open spec fn added_content(l: DiffLine) -> Seq<ContentView> {
    match l.new_line {
        Some(n) => seq![
            ContentView::Unified(
                side_view(None, Some(n.0), '+', n, LineOrigin::Addition, l.new_segments),
            ),
        ],
        None => Seq::empty(),
    }
}

/// Content rows of a hunk.
pub open spec fn diff_rows(cs: Seq<ContentView>, h: usize) -> Seq<RowView> {
    cs.map_values(|c: ContentView| RowView { kind: KindView::Diff(h), content: c })
}

fn push_code(rows: &mut Vec<Row>, h: usize, code: CodeLine)
    ensures
        row_views(final(rows)@) == row_views(old(rows)@) + diff_rows(
            seq![ContentView::Unified(code_view(code))],
            h,
        ),
{
    let ghost had = row_views(rows@);
    push_row(rows, Row { kind: RowKind::Diff(h), content: RowContent::Unified(code) });
    assert(row_views(rows@) =~= had + diff_rows(seq![ContentView::Unified(code_view(code))], h));
}

fn push_removed(rows: &mut Vec<Row>, h: usize, l: &DiffLine)
    ensures
        row_views(final(rows)@) == row_views(old(rows)@) + diff_rows(removed_content(*l), h),
{
    let ghost had = row_views(rows@);
    match &l.old_line {
        Some(n) => push_code(
            rows,
            h,
            side_line(Some(n.0), None, '-', n, LineOrigin::Deletion, &l.old_segments),
        ),
        None => {
            assert(had + diff_rows(removed_content(*l), h) =~= had);
        },
    }
}

fn push_added(rows: &mut Vec<Row>, h: usize, l: &DiffLine)
    ensures
        row_views(final(rows)@) == row_views(old(rows)@) + diff_rows(added_content(*l), h),
{
    let ghost had = row_views(rows@);
    match &l.new_line {
        Some(n) => push_code(
            rows,
            h,
            side_line(None, Some(n.0), '+', n, LineOrigin::Addition, &l.new_segments),
        ),
        None => {
            assert(had + diff_rows(added_content(*l), h) =~= had);
        },
    }
}

fn push_line(rows: &mut Vec<Row>, h: usize, l: &DiffLine, mode: DiffMode)
    ensures
        row_views(final(rows)@) == row_views(old(rows)@) + diff_rows(diff_contents(*l, mode), h),
{
    let ghost had = row_views(rows@);
    if mode == DiffMode::Split {
        let equal = l.change_type == ChangeType::Equal;
        let old = half(&l.old_line, equal, '-', LineOrigin::Deletion, &l.old_segments);
        let new = half(&l.new_line, equal, '+', LineOrigin::Addition, &l.new_segments);
        push_row(rows, Row { kind: RowKind::Diff(h), content: RowContent::Split { old, new } });
        assert(row_views(rows@) =~= had + diff_rows(diff_contents(*l, mode), h));
        return;
    }
    match l.change_type {
        ChangeType::Equal => match &l.new_line {
            Some(n) => {
                let old_n: usize = match &l.old_line {
                    Some(o) => o.0,
                    None => 0,
                };
                push_code(
                    rows,
                    h,
                    side_line(Some(old_n), Some(n.0), ' ', n, LineOrigin::Context, &None),
                );
            },
            None => {
                assert(had + diff_rows(diff_contents(*l, mode), h) =~= had);
            },
        },
        ChangeType::Delete => push_removed(rows, h, l),
        ChangeType::Insert => push_added(rows, h, l),
        ChangeType::Modified => {
            push_removed(rows, h, l);
            push_added(rows, h, l);
            assert(row_views(rows@) =~= had + diff_rows(diff_contents(*l, mode), h));
        },
    }
}

// ---------------------------------------------------------------------------
// Hunks

/// The lines of each file that were computed, side by side.
#[derive(Debug, Clone)]
pub struct FileRows {
    pub path: String,
    pub rows: Vec<DiffLine>,
}

/// The computed files, kept across group switches.
#[derive(Debug, Clone)]
pub struct RowFactory {
    pub files: Vec<FileRows>,
}

/// The lines of the first file with a path, from place `from` on; none where it was
/// not computed.
pub open spec fn rows_from(files: Seq<FileRows>, path: Seq<char>, from: int) -> Seq<DiffLine>
    decreases files.len() - from,
{
    if from >= files.len() {
        Seq::empty()
    } else if files[from].path@ == path {
        files[from].rows@
    } else {
        rows_from(files, path, from + 1)
    }
}

impl RowFactory {
    pub fn new() -> (r: Self)
        ensures
            r.files@.len() == 0,
    {
        RowFactory { files: Vec::new() }
    }

    /// The lines of a file.
    pub open spec fn lines_in(&self, path: Seq<char>) -> Seq<DiffLine> {
        rows_from(self.files@, path, 0)
    }

    /// Whether a file was computed.
    pub fn has(&self, path: &str) -> (r: bool)
        ensures
            r == exists|i: int| 0 <= i < self.files@.len() && (#[trigger] self.files@[i]).path@ == path@,
    {
        for i in 0..self.files.len()
            invariant
                forall|k: int| 0 <= k < i ==> (#[trigger] self.files@[k]).path@ != path@,
        {
            if str_eq(&self.files[i].path, path) {
                assert(self.files@[i as int].path@ == path@);
                return true;
            }
        }
        false
    }

    fn find(&self, path: &str) -> (r: Option<&Vec<DiffLine>>)
        ensures
            match r {
                Some(rows) => rows@ == self.lines_in(path@),
                None => self.lines_in(path@) == Seq::<DiffLine>::empty(),
            },
    {
        for i in 0..self.files.len()
            invariant
                self.lines_in(path@) == rows_from(self.files@, path@, i as int),
        {
            if str_eq(&self.files[i].path, path) {
                return Some(&self.files[i].rows);
            }
        }
        None
    }

    /// Keep a computed file.
    pub fn keep(&mut self, path: String, rows: Vec<DiffLine>)
        ensures
            final(self).files@ == old(self).files@.push((FileRows { path, rows })),
    {
        self.files.push(FileRows { path, rows });
    }
}

/// Whether a line number lies in a range of a hunk.
pub open spec fn in_range(n: usize, start: u32, count: u32) -> bool {
    count > 0 && start <= n < start + count
}

/// Whether a row is one of the changed lines of a hunk.
pub open spec fn is_hit(l: DiffLine, h: HunkEntry) -> bool {
    &&& l.change_type != ChangeType::Equal
    &&& (l.new_line matches Some(n) && in_range(n.0, h.new_start, h.new_count)) || (
    l.old_line matches Some(o) && in_range(o.0, h.old_start, h.old_count))
}

/// The first row of a hunk, from place `from` on.
pub open spec fn first_hit(rows: Seq<DiffLine>, h: HunkEntry, from: int) -> Option<int>
    decreases rows.len() - from,
{
    if from >= rows.len() {
        None
    } else if is_hit(rows[from], h) {
        Some(from)
    } else {
        first_hit(rows, h, from + 1)
    }
}

/// The last row of a hunk among the first `k`.
pub open spec fn last_hit(rows: Seq<DiffLine>, h: HunkEntry, k: nat) -> Option<int>
    decreases k,
{
    if k == 0 {
        None
    } else if is_hit(rows[k - 1], h) {
        Some(k - 1)
    } else {
        last_hit(rows, h, (k - 1) as nat)
    }
}

fn hits(l: &DiffLine, h: &HunkEntry) -> (r: bool)
    ensures
        r == is_hit(*l, *h),
{
    if l.change_type == ChangeType::Equal {
        return false;
    }
    let new_hit = match &l.new_line {
        Some(n) => h.new_count > 0 && n.0 as u64 >= h.new_start as u64 && (n.0 as u64)
            < h.new_start as u64 + h.new_count as u64,
        None => false,
    };
    let old_hit = match &l.old_line {
        Some(o) => h.old_count > 0 && o.0 as u64 >= h.old_start as u64 && (o.0 as u64)
            < h.old_start as u64 + h.old_count as u64,
        None => false,
    };
    new_hit || old_hit
}

/// The rows that a hunk covers: from its first row to its last.
pub fn hunk_row_range(rows: &Vec<DiffLine>, hunk: &HunkEntry) -> (r: Option<(usize, usize)>)
    ensures
        match r {
            Some((a, b)) => {
                &&& first_hit(rows@, *hunk, 0) == Some(a as int)
                &&& last_hit(rows@, *hunk, rows@.len()) == Some(b as int)
                &&& a <= b < rows@.len()
            },
            None => first_hit(rows@, *hunk, 0) is None && last_hit(rows@, *hunk, rows@.len()) is None,
        },
{
    let mut first: Option<usize> = None;
    let mut last: Option<usize> = None;
    for i in 0..rows.len()
        invariant
            match first {
                Some(a) => first_hit(rows@, *hunk, 0) == Some(a as int),
                None => first_hit(rows@, *hunk, 0) == first_hit(rows@, *hunk, i as int),
            },
            match last {
                Some(b) => last_hit(rows@, *hunk, i as nat) == Some(b as int) && b < i,
                None => last_hit(rows@, *hunk, i as nat) is None,
            },
            first is Some <==> last is Some,
            first matches Some(a) ==> a <= last->0,
    {
        if hits(&rows[i], hunk) {
            if first.is_none() {
                first = Some(i);
            }
            last = Some(i);
        }
    }
    match (first, last) {
        (Some(a), Some(b)) => Some((a, b)),
        _ => None,
    }
}

/// What every hunk-level builder needs, independent of the left-pane view.
pub struct RowsContext<'a> {
    pub doc: &'a PlanDocument,
    pub findings: &'a Vec<Finding>,
    /// Hunk indices marked reviewed.
    pub reviewed: &'a Vec<usize>,
    pub mode: DiffMode,
    /// The label of the group that owns each hunk, shown where group membership is
    /// otherwise invisible.
    pub hunk_labels: Option<&'a Vec<Option<String>>>,
}

/// The label shown on a hunk's header.
pub open spec fn label_note(labels: Option<Vec<Option<String>>>, h: int) -> Seq<char> {
    match labels {
        Some(v) => if h < v@.len() {
            match v@[h] {
                Some(l) => "  · "@ + l@,
                None => ""@,
            }
        } else {
            ""@
        },
        None => ""@,
    }
}

/// How many of the first `k` findings stand on a hunk.
pub open spec fn count_on(findings: Seq<Finding>, digest: Seq<char>, k: nat) -> nat
    decreases k,
{
    if k == 0 {
        0
    } else {
        count_on(findings, digest, (k - 1) as nat) + (if findings[k - 1].anchor.hunk_digest@
            == digest {
            1nat
        } else {
            0
        })
    }
}

/// The note on a hunk's header that counts its findings.
pub open spec fn count_note(n: nat) -> Seq<char> {
    if n > 0 {
        "  ◆ "@ + decimal(n) + " finding(s)"@
    } else {
        ""@
    }
}

/// The header of a hunk: its line ranges, its class, its group and whether it is
/// reviewed.
pub open spec fn hunk_title(h: HunkEntry, label: Seq<char>, reviewed: bool) -> Seq<char> {
    "@@ -"@ + decimal(h.old_start as nat) + ","@ + decimal(h.old_count as nat) + " +"@ + decimal(
        h.new_start as nat,
    ) + ","@ + decimal(h.new_count as nat) + " @@  "@ + h.class@ + label + (if reviewed {
        " ✓ reviewed"@
    } else {
        ""@
    })
}

fn hunk_title_string(h: &HunkEntry, label: &str, reviewed: bool) -> (r: String)
    ensures
        r@ == hunk_title(*h, label@, reviewed),
{
    let mut out = "@@ -".to_owned();
    push_decimal(&mut out, h.old_start as u64);
    push_str(&mut out, ",");
    push_decimal(&mut out, h.old_count as u64);
    push_str(&mut out, " +");
    push_decimal(&mut out, h.new_start as u64);
    push_str(&mut out, ",");
    push_decimal(&mut out, h.new_count as u64);
    push_str(&mut out, " @@  ");
    push_str(&mut out, &h.class);
    push_str(&mut out, label);
    push_str(
        &mut out,
        if reviewed {
            " ✓ reviewed"
        } else {
            ""
        },
    );
    out
}

/// The first line of a text; empty where there is none.
pub open spec fn first_text_line(s: Seq<char>) -> Seq<char> {
    if lines(s).len() > 0 {
        lines(s)[0]
    } else {
        ""@
    }
}

/// The row of a finding.
pub open spec fn finding_row(f: Finding, h: usize) -> RowView {
    one(
        KindView::Finding(f.id@, h),
        Tone::Finding,
        "  ◆ "@ + first_text_line(f.body@) + (if f.moved {
            " (moved)"@
        } else {
            ""@
        }),
    )
}

/// The rows of those of the first `k` findings that stand on a hunk.
pub open spec fn finding_rows(
    findings: Seq<Finding>,
    digest: Seq<char>,
    h: usize,
    k: nat,
) -> Seq<RowView>
    decreases k,
{
    if k == 0 {
        Seq::empty()
    } else {
        let before = finding_rows(findings, digest, h, (k - 1) as nat);
        if findings[k - 1].anchor.hunk_digest@ == digest {
            before.push(finding_row(findings[k - 1], h))
        } else {
            before
        }
    }
}

/// The header row of a hunk.
pub open spec fn hunk_header(ctx: &RowsContext, h: usize) -> RowView {
    let entry = ctx.doc.hunks@[h as int];
    let reviewed = ctx.reviewed@.contains(h);
    let labels = match ctx.hunk_labels {
        Some(v) => Some(*v),
        None => None,
    };
    RowView {
        kind: KindView::HunkHeader(h),
        content: ContentView::Full(
            seq![
                (
                    if reviewed {
                        Tone::Reviewed
                    } else {
                        Tone::Hunk
                    },
                    hunk_title(entry, label_note(labels, h as int), reviewed),
                ),
                (
                    Tone::Finding,
                    count_note(count_on(ctx.findings@, entry.digest@, ctx.findings@.len())),
                ),
            ],
        ),
    }
}

/// The rows of the lines from place `from` up to place `to`.
pub open spec fn line_rows(
    lines: Seq<DiffLine>,
    h: usize,
    mode: DiffMode,
    from: int,
    to: int,
) -> Seq<RowView>
    decreases to - from,
{
    if to <= from {
        Seq::empty()
    } else {
        line_rows(lines, h, mode, from, to - 1) + diff_rows(diff_contents(lines[to - 1], mode), h)
    }
}

/// Whether a file has no text to show.
pub open spec fn no_text(f: Option<FileEntry>) -> bool {
    f matches Some(f) && (f.binary || f.submodule is Some)
}

/// The content of a hunk: its lines with some context, and a blank row. A file
/// without text, and lines that were not computed, are told in one row.
pub open spec fn hunk_body(ctx: &RowsContext, lines: Seq<DiffLine>, h: usize) -> Seq<RowView> {
    let entry = ctx.doc.hunks@[h as int];
    if no_text(first_file(ctx.doc, entry.file@)) {
        seq![one(KindView::Diff(h), Tone::Noise, "  (binary or submodule change)"@)]
    } else {
        match (first_hit(lines, entry, 0), last_hit(lines, entry, lines.len())) {
            (Some(a), Some(b)) => {
                let from = if a >= CONTEXT {
                    a - CONTEXT
                } else {
                    0
                };
                let to = if b + CONTEXT + 1 <= lines.len() {
                    b + CONTEXT + 1
                } else {
                    lines.len() as int
                };
                line_rows(lines, h, ctx.mode, from, to).push(blank())
            },
            _ => seq![one(KindView::Diff(h), Tone::Noise, "  (content unavailable)"@)],
        }
    }
}

/// The rows of a hunk: its header, its findings, its content.
pub open spec fn hunk_view(ctx: &RowsContext, factory: &RowFactory, h: usize) -> Seq<RowView> {
    let entry = ctx.doc.hunks@[h as int];
    seq![hunk_header(ctx, h)] + finding_rows(
        ctx.findings@,
        entry.digest@,
        h,
        ctx.findings@.len(),
    ) + hunk_body(ctx, factory.lines_in(entry.file@), h)
}

fn holds(list: &Vec<usize>, x: usize) -> (r: bool)
    ensures
        r == list@.contains(x),
{
    for i in 0..list.len()
        invariant
            forall|k: int| 0 <= k < i ==> list@[k] != x,
    {
        if list[i] == x {
            return true;
        }
    }
    false
}

fn push_hunk_header(ctx: &RowsContext, h: usize, rows: &mut Vec<Row>)
    requires
        h < ctx.doc.hunks@.len(),
    ensures
        row_views(final(rows)@) == row_views(old(rows)@).push(hunk_header(ctx, h)),
{
    let entry = &ctx.doc.hunks[h];
    let reviewed = holds(ctx.reviewed, h);
    let mut label = "".to_owned();
    if let Some(v) = ctx.hunk_labels {
        if h < v.len() {
            if let Some(l) = &v[h] {
                label = "  · ".to_owned();
                push_str(&mut label, l);
            }
        }
    }
    let mut n: usize = 0;
    let findings = ctx.findings;
    for i in 0..findings.len()
        invariant
            n <= i,
            n == count_on(findings@, entry.digest@, i as nat),
    {
        if str_eq(&findings[i].anchor.hunk_digest, &entry.digest) {
            n = n + 1;
        }
    }
    let mut notes = "".to_owned();
    if n > 0 {
        notes = "  ◆ ".to_owned();
        push_decimal(&mut notes, n as u64);
        push_str(&mut notes, " finding(s)");
    }
    let tone = if reviewed {
        Tone::Reviewed
    } else {
        Tone::Hunk
    };
    let mut ps: Vec<Piece> = Vec::new();
    ps.push(Piece { tone, text: hunk_title_string(entry, &label, reviewed) });
    ps.push(Piece { tone: Tone::Finding, text: notes });
    let row = Row { kind: RowKind::HunkHeader(h), content: RowContent::Full(ps) };
    assert(piece_views(ps@) =~= hunk_header(ctx, h).content->Full_0);
    push_row(rows, row);
}

fn push_findings(ctx: &RowsContext, h: usize, rows: &mut Vec<Row>)
    requires
        h < ctx.doc.hunks@.len(),
    ensures
        row_views(final(rows)@) == row_views(old(rows)@) + finding_rows(
            ctx.findings@,
            ctx.doc.hunks@[h as int].digest@,
            h,
            ctx.findings@.len(),
        ),
{
    let entry = &ctx.doc.hunks[h];
    let findings = ctx.findings;
    let ghost base = row_views(rows@);
    assert(base + finding_rows(findings@, entry.digest@, h, 0) =~= base);
    for i in 0..findings.len()
        invariant
            row_views(rows@) == base + finding_rows(findings@, entry.digest@, h, i as nat),
    {
        let f = &findings[i];
        let ghost had = finding_rows(findings@, entry.digest@, h, i as nat);
        if str_eq(&f.anchor.hunk_digest, &entry.digest) {
            let body_lines = lines_of(&f.body);
            assert(texts(body_lines@).len() == body_lines@.len());
            let mut text = "  ◆ ".to_owned();
            if body_lines.len() > 0 {
                assert(texts(body_lines@)[0] == body_lines@[0]@);
                push_str(&mut text, &body_lines[0]);
            } else {
                push_str(&mut text, "");
            }
            push_str(
                &mut text,
                if f.moved {
                    " (moved)"
                } else {
                    ""
                },
            );
            let row = Row::full(RowKind::Finding(f.id.clone(), h), Tone::Finding, text);
            assert(row_view(row) == finding_row(*f, h));
            push_row(rows, row);
            assert(row_views(rows@) =~= base + had.push(finding_row(*f, h)));
        }
    }
}

fn push_body(ctx: &RowsContext, lines: &Vec<DiffLine>, h: usize, rows: &mut Vec<Row>)
    requires
        h < ctx.doc.hunks@.len(),
    ensures
        row_views(final(rows)@) == row_views(old(rows)@) + hunk_body(ctx, lines@, h),
{
    let entry = &ctx.doc.hunks[h];
    let ghost base = row_views(rows@);
    if let Some(f) = first_file_place(ctx.doc, &entry.file) {
        if ctx.doc.files[f].binary || ctx.doc.files[f].submodule.is_some() {
            push_row(
                rows,
                Row::full(
                    RowKind::Diff(h),
                    Tone::Noise,
                    "  (binary or submodule change)".to_owned(),
                ),
            );
            assert(row_views(rows@) =~= base + hunk_body(ctx, lines@, h));
            return;
        }
    }
    assert(!no_text(first_file(ctx.doc, entry.file@)));
    match hunk_row_range(lines, entry) {
        None => {
            push_row(
                rows,
                Row::full(RowKind::Diff(h), Tone::Noise, "  (content unavailable)".to_owned()),
            );
            assert(row_views(rows@) =~= base + hunk_body(ctx, lines@, h));
        },
        Some((a, b)) => {
            let from: usize = if a >= CONTEXT {
                a - CONTEXT
            } else {
                0
            };
            let to: usize = if lines.len() - b >= CONTEXT + 1 {
                b + CONTEXT + 1
            } else {
                lines.len()
            };
            assert(base + line_rows(lines@, h, ctx.mode, from as int, from as int) =~= base);
            for i in from..to
                invariant
                    from <= to <= lines@.len(),
                    row_views(rows@) == base + line_rows(
                        lines@,
                        h,
                        ctx.mode,
                        from as int,
                        i as int,
                    ),
            {
                push_line(rows, h, &lines[i], ctx.mode);
                assert(row_views(rows@) =~= base + line_rows(
                    lines@,
                    h,
                    ctx.mode,
                    from as int,
                    i + 1,
                ));
            }
            push_row(rows, Row::blank());
            assert(row_views(rows@) =~= base + hunk_body(ctx, lines@, h));
        },
    }
}

/// Add the rows of a hunk.
pub fn hunk_rows(factory: &RowFactory, ctx: &RowsContext, h: usize, rows: &mut Vec<Row>)
    requires
        h < ctx.doc.hunks@.len(),
    ensures
        row_views(final(rows)@) == row_views(old(rows)@) + hunk_view(ctx, factory, h),
{
    let ghost base = row_views(rows@);
    push_hunk_header(ctx, h, rows);
    push_findings(ctx, h, rows);
    match factory.find(&ctx.doc.hunks[h].file) {
        Some(lines) => push_body(ctx, lines, h, rows),
        None => {
            let none: Vec<DiffLine> = Vec::new();
            assert(none@ =~= Seq::<DiffLine>::empty());
            push_body(ctx, &none, h, rows)
        },
    }
    assert(row_views(rows@) =~= base + hunk_view(ctx, factory, h));
}

// ---------------------------------------------------------------------------
// Lists of hunks

/// Whether a hunk stands before another: by file, then by line.
pub open spec fn stands_before(doc: &PlanDocument, a: usize, b: usize) -> bool {
    let x = doc.hunks@[a as int];
    let y = doc.hunks@[b as int];
    if x.file@ == y.file@ {
        x.new_start < y.new_start
    } else {
        chars_lt(x.file@, y.file@)
    }
}

/// Hunks in the order of their files and lines; those of one place keep their order.
pub open spec fn in_file_order(doc: &PlanDocument, hunks: Seq<usize>) -> Seq<usize> {
    let perm = stable_perm(
        hunks.len() as int,
        |i: int, j: int| stands_before(doc, hunks[i], hunks[j]),
    );
    Seq::new(hunks.len(), |k: int| hunks[perm[k] as int])
}

proof fn lemma_stands_before(doc: &PlanDocument, hunks: Seq<usize>)
    ensures
        is_order(
            hunks.len() as int,
            |i: int, j: int| stands_before(doc, hunks[i], hunks[j]),
        ),
{
    let lt = |i: int, j: int| stands_before(doc, hunks[i], hunks[j]);
    let file = |i: int| doc.hunks@[hunks[i] as int].file@;
    assert forall|i: int| !#[trigger] lt(i, i) by {}
    assert forall|i: int, j: int, k: int| #[trigger] lt(i, j) && #[trigger] lt(j, k) implies lt(
        i,
        k,
    ) by {
        lemma_chars_order(file(i), file(j), file(k));
        lemma_chars_order(file(j), file(i), file(j));
        lemma_chars_order(file(i), file(j), file(i));
    }
    assert forall|i: int, j: int, k: int| #[trigger] lt(i, k) implies #[trigger] lt(i, j) || lt(
        j,
        k,
    ) by {
        lemma_chars_order(file(i), file(j), file(k));
        lemma_chars_order(file(i), file(j), file(i));
        lemma_chars_order(file(j), file(k), file(j));
    }
}

fn sort_hunks(doc: &PlanDocument, hunks: &Vec<usize>) -> (r: Vec<usize>)
    requires
        forall|i: int| 0 <= i < hunks@.len() ==> (#[trigger] hunks@[i]) < doc.hunks@.len(),
    ensures
        r@ == in_file_order(doc, hunks@),
        forall|i: int| 0 <= i < r@.len() ==> (#[trigger] r@[i]) < doc.hunks@.len(),
{
    let ghost hs = hunks@;
    let ghost lt = |i: int, j: int| stands_before(doc, hs[i], hs[j]);
    let less = |i: usize, j: usize| -> (r: bool)
        requires
            i < hunks@.len(),
            j < hunks@.len(),
            hunks@[i as int] < doc.hunks@.len(),
            hunks@[j as int] < doc.hunks@.len(),
        ensures
            r == stands_before(doc, hunks@[i as int], hunks@[j as int]),
        {
            let x = &doc.hunks[hunks[i]];
            let y = &doc.hunks[hunks[j]];
            if str_eq(&x.file, &y.file) {
                x.new_start < y.new_start
            } else {
                str_less(&x.file, &y.file)
            }
        };
    proof {
        lemma_stands_before(doc, hs);
    }
    let order = stable_order(hunks.len(), less, Ghost(lt));
    let mut out: Vec<usize> = Vec::new();
    for k in 0..order.len()
        invariant
            hs == hunks@,
            order@.len() == hs.len(),
            forall|a: int| 0 <= a < order@.len() ==> (#[trigger] order@[a]) < hs.len(),
            forall|i: int| 0 <= i < hunks@.len() ==> (#[trigger] hunks@[i]) < doc.hunks@.len(),
            out@.len() == k,
            forall|a: int| 0 <= a < k ==> #[trigger] out@[a] == hs[order@[a] as int],
    {
        out.push(hunks[order[k]]);
    }
    assert(out@ =~= in_file_order(doc, hs));
    out
}

/// The header of a file: its path, where it was renamed from, and whether it is
/// generated.
pub open spec fn file_title(doc: &PlanDocument, path: Seq<char>) -> Seq<char> {
    "▍"@ + path + (match first_file(doc, path) {
        None => ""@,
        Some(f) => (match f.old_path {
            None => ""@,
            Some(old) => "  (renamed from "@ + old@ + (match f.rename_similarity {
                Some(s) => ", "@ + decimal(s as nat) + "% similar"@,
                None => ""@,
            }) + ")"@,
        }) + (if f.generated {
            "  [generated]"@
        } else {
            ""@
        }),
    })
}

/// The header row of a file.
pub open spec fn file_header(doc: &PlanDocument, path: Seq<char>) -> RowView {
    one(KindView::FileHeader(path), Tone::FileHeader, file_title(doc, path))
}

fn rename_string(f: &FileEntry) -> (r: String)
    ensures
        r@ == (match f.old_path {
            None => ""@,
            Some(old) => "  (renamed from "@ + old@ + (match f.rename_similarity {
                Some(s) => ", "@ + decimal(s as nat) + "% similar"@,
                None => ""@,
            }) + ")"@,
        }),
{
    match &f.old_path {
        None => "".to_owned(),
        Some(old) => {
            let mut sim = "".to_owned();
            if let Some(s) = f.rename_similarity {
                sim = ", ".to_owned();
                push_decimal(&mut sim, s as u64);
                push_str(&mut sim, "% similar");
            }
            let mut out = "  (renamed from ".to_owned();
            push_str(&mut out, old);
            push_str(&mut out, &sim);
            push_str(&mut out, ")");
            out
        },
    }
}

fn file_header_row(doc: &PlanDocument, path: &str) -> (r: Row)
    ensures
        row_view(r) == file_header(doc, path@),
{
    let mut text = "▍".to_owned();
    push_str(&mut text, path);
    let mut note = "".to_owned();
    if let Some(f) = first_file_place(doc, path) {
        note = rename_string(&doc.files[f]);
        push_str(
            &mut note,
            if doc.files[f].generated {
                "  [generated]"
            } else {
                ""
            },
        );
    }
    push_str(&mut text, &note);
    Row::full(RowKind::FileHeader(path.to_owned()), Tone::FileHeader, text)
}

/// The file header before hunk `k` of a list: one on every change of file.
pub open spec fn header_before(doc: &PlanDocument, hunks: Seq<usize>, k: int) -> Seq<RowView> {
    let path = doc.hunks@[hunks[k] as int].file@;
    if k > 0 && doc.hunks@[hunks[k - 1] as int].file@ == path {
        Seq::empty()
    } else {
        seq![file_header(doc, path)]
    }
}

/// The rows of the first `k` hunks of a list.
pub open spec fn list_view(
    ctx: &RowsContext,
    factory: &RowFactory,
    hunks: Seq<usize>,
    k: nat,
) -> Seq<RowView>
    decreases k,
{
    if k == 0 {
        Seq::empty()
    } else {
        list_view(ctx, factory, hunks, (k - 1) as nat) + header_before(ctx.doc, hunks, k - 1)
            + hunk_view(ctx, factory, hunks[k - 1])
    }
}

/// The rows of hunks in the order of their files and lines. Both views go through
/// here.
pub open spec fn hunk_list(ctx: &RowsContext, factory: &RowFactory, hunks: Seq<usize>) -> Seq<
    RowView,
> {
    list_view(ctx, factory, in_file_order(ctx.doc, hunks), hunks.len())
}

fn hunk_list_rows(factory: &RowFactory, ctx: &RowsContext, hunks: &Vec<usize>, rows: &mut Vec<Row>)
    requires
        forall|i: int| 0 <= i < hunks@.len() ==> (#[trigger] hunks@[i]) < ctx.doc.hunks@.len(),
    ensures
        row_views(final(rows)@) == row_views(old(rows)@) + hunk_list(ctx, factory, hunks@),
{
    let sorted = sort_hunks(ctx.doc, hunks);
    let ghost base = row_views(rows@);
    assert(base + list_view(ctx, factory, sorted@, 0) =~= base);
    for k in 0..sorted.len()
        invariant
            forall|i: int| 0 <= i < sorted@.len() ==> (#[trigger] sorted@[i]) < ctx.doc.hunks@.len(),
            row_views(rows@) == base + list_view(ctx, factory, sorted@, k as nat),
    {
        let h = sorted[k];
        let ghost before = row_views(rows@);
        let path = &ctx.doc.hunks[h].file;
        let same = k > 0 && str_eq(&ctx.doc.hunks[sorted[k - 1]].file, path);
        if !same {
            push_row(rows, file_header_row(ctx.doc, path));
        }
        assert(row_views(rows@) =~= before + header_before(ctx.doc, sorted@, k as int));
        hunk_rows(factory, ctx, h, rows);
        assert(row_views(rows@) =~= base + list_view(ctx, factory, sorted@, (k + 1) as nat));
    }
}

/// The rows of a file: every hunk of it, whatever its group, or one row that says
/// there is no text.
pub open spec fn file_view(
    ctx: &RowsContext,
    factory: &RowFactory,
    path: Seq<char>,
    hunks: Seq<usize>,
) -> Seq<RowView> {
    if hunks.len() == 0 {
        seq![
            file_header(ctx.doc, path),
            one(
                KindView::Blank,
                Tone::Noise,
                "  (no text hunks — binary, submodule or mode-only change)"@,
            ),
        ]
    } else {
        hunk_list(ctx, factory, hunks)
    }
}

/// Build the right-pane rows for one file (the flattened view): everything, in file
/// order, and no fold.
pub fn build_file_rows(factory: &RowFactory, ctx: &RowsContext, path: &str, hunks: &Vec<usize>) -> (r:
    Vec<Row>)
    requires
        forall|i: int| 0 <= i < hunks@.len() ==> (#[trigger] hunks@[i]) < ctx.doc.hunks@.len(),
    ensures
        row_views(r@) == file_view(ctx, factory, path@, hunks@),
{
    let mut rows: Vec<Row> = Vec::new();
    assert(row_views(rows@) =~= Seq::empty());
    if hunks.len() == 0 {
        push_row(&mut rows, file_header_row(ctx.doc, path));
        push_row(
            &mut rows,
            Row::full(
                RowKind::Blank,
                Tone::Noise,
                "  (no text hunks — binary, submodule or mode-only change)".to_owned(),
            ),
        );
        assert(row_views(rows@) =~= file_view(ctx, factory, path@, hunks@));
        return rows;
    }
    hunk_list_rows(factory, ctx, hunks, &mut rows);
    assert(row_views(rows@) =~= file_view(ctx, factory, path@, hunks@));
    rows
}

// ---------------------------------------------------------------------------
// Groups

/// The group view's extras on top of the shared core.
pub struct GroupContext<'a> {
    pub core: RowsContext<'a>,
    pub group: &'a Group,
    pub fold_open: bool,
}

/// The note on a group's role.
pub open spec fn role_note(role: Option<Role>) -> Seq<char> {
    match role {
        Some(Role::Foundation) => " · foundation"@,
        Some(Role::Consumer) => " · consumer"@,
        Some(Role::Mechanical) => " · mechanical"@,
        Some(Role::Noise) => " · noise"@,
        None => ""@,
    }
}

/// A group that another depends on: its id, and its label where it is there.
pub open spec fn dependency_text(doc: &PlanDocument, id: Seq<char>) -> Seq<char> {
    match last_pos(group_names(groups_of(doc)), id) {
        Some(i) => id + " ("@ + groups_of(doc)[i].label@ + ")"@,
        None => id,
    }
}

/// The rows at the head of a group: its tier, label and role, its description, what
/// it depends on, and a blank row.
pub open spec fn group_header(doc: &PlanDocument, g: Group) -> Seq<RowView> {
    let title = RowView {
        kind: KindView::GroupHeader,
        content: ContentView::Full(
            seq![
                (Tone::Tier(g.effort), "["@ + effort_text(g.effort) + "] "@),
                (Tone::Label, g.label@),
                (Tone::Gutter, role_note(g.role)),
            ],
        ),
    };
    seq![title] + description_rows(g) + dependency_rows(doc, g) + seq![blank()]
}

pub open spec fn description_rows(g: Group) -> Seq<RowView> {
    if g.description@.len() > 0 {
        seq![one(KindView::GroupHeader, Tone::Context, "  "@ + g.description@)]
    } else {
        Seq::empty()
    }
}

pub open spec fn dependency_rows(doc: &PlanDocument, g: Group) -> Seq<RowView> {
    if g.depends_on@.len() > 0 {
        seq![
            one(
                KindView::GroupHeader,
                Tone::Gutter,
                "  depends on: "@ + join_with(
                    texts(g.depends_on@).map_values(|id: Seq<char>| dependency_text(doc, id)),
                    ", "@,
                ),
            ),
        ]
    } else {
        Seq::empty()
    }
}

fn dependency_string(groups: &[Group], doc: &PlanDocument, id: &str) -> (r: String)
    requires
        groups@ == groups_of(doc),
    ensures
        r@ == dependency_text(doc, id@),
{
    match find_group(groups, id) {
        Some(i) => {
            let mut out = id.to_owned();
            push_str(&mut out, " (");
            push_str(&mut out, &groups[i].label);
            push_str(&mut out, ")");
            out
        },
        None => id.to_owned(),
    }
}

fn dependencies_string(groups: &[Group], doc: &PlanDocument, ids: &Vec<String>) -> (r: String)
    requires
        groups@ == groups_of(doc),
    ensures
        r@ == join_with(
            texts(ids@).map_values(|id: Seq<char>| dependency_text(doc, id)),
            ", "@,
        ),
{
    let ghost want = texts(ids@).map_values(|id: Seq<char>| dependency_text(doc, id));
    let mut deps: Vec<String> = Vec::new();
    for i in 0..ids.len()
        invariant
            groups@ == groups_of(doc),
            want == texts(ids@).map_values(|id: Seq<char>| dependency_text(doc, id)),
            deps@.len() == i,
            forall|k: int| 0 <= k < i ==> (#[trigger] deps@[k])@ == want[k],
    {
        deps.push(dependency_string(groups, doc, &ids[i]));
        assert(want[i as int] == dependency_text(doc, texts(ids@)[i as int]));
    }
    assert(texts(deps@) =~= want);
    join_strings(&deps, ", ")
}

fn header_rows(groups: &[Group], doc: &PlanDocument, g: &Group, rows: &mut Vec<Row>)
    requires
        groups@ == groups_of(doc),
    ensures
        row_views(final(rows)@) == row_views(old(rows)@) + group_header(doc, *g),
{
    let ghost base = row_views(rows@);
    let mut tier = "[".to_owned();
    push_str(&mut tier, effort_name(g.effort));
    push_str(&mut tier, "] ");
    let role = match g.role {
        Some(Role::Foundation) => " · foundation",
        Some(Role::Consumer) => " · consumer",
        Some(Role::Mechanical) => " · mechanical",
        Some(Role::Noise) => " · noise",
        None => "",
    };
    let mut ps: Vec<Piece> = Vec::new();
    ps.push(Piece { tone: Tone::Tier(g.effort), text: tier });
    ps.push(Piece { tone: Tone::Label, text: g.label.clone() });
    ps.push(Piece { tone: Tone::Gutter, text: role.to_owned() });
    assert(piece_views(ps@) =~= seq![
        (Tone::Tier(g.effort), "["@ + effort_text(g.effort) + "] "@),
        (Tone::Label, g.label@),
        (Tone::Gutter, role_note(g.role)),
    ]);
    push_row(rows, Row { kind: RowKind::GroupHeader, content: RowContent::Full(ps) });
    let ghost titled = row_views(rows@);
    proof {
        reveal_strlit("");
        assert(g.description@.len() == 0 ==> g.description@ =~= ""@);
    }
    if !str_eq(&g.description, "") {
        let mut text = "  ".to_owned();
        push_str(&mut text, &g.description);
        push_row(rows, Row::full(RowKind::GroupHeader, Tone::Context, text));
    }
    assert(row_views(rows@) =~= titled + description_rows(*g));
    let ghost described = row_views(rows@);
    if g.depends_on.len() > 0 {
        let mut text = "  depends on: ".to_owned();
        push_str(&mut text, &dependencies_string(groups, doc, &g.depends_on));
        push_row(rows, Row::full(RowKind::GroupHeader, Tone::Gutter, text));
    }
    assert(row_views(rows@) =~= described + dependency_rows(doc, *g));
    push_row(rows, Row::blank());
    assert(row_views(rows@) =~= base + group_header(doc, *g));
}

/// The row that stands for what is folded away.
pub open spec fn fold_rows(g: Group, hidden: nat) -> Seq<RowView> {
    if hidden == 0 {
        Seq::empty()
    } else {
        seq![
            one(
                KindView::Fold,
                Tone::Noise,
                "  ── "@ + decimal(hidden) + " "@ + (if g.effort == Effort::Noise {
                    "folded generated hunks"@
                } else {
                    "remaining hunks, same shapes as the exemplars above"@
                }) + " — press z to unfold ──"@,
            ),
        ]
    }
}

/// Hunk numbers as indices.
pub open spec fn indices(ns: Seq<int>) -> Seq<usize> {
    ns.map_values(|n: int| n as usize)
}

/// Whether a group is unfolded.
pub open spec fn fold_of(open: bool) -> Fold {
    if open {
        Fold::Unfolded
    } else {
        Fold::Folded
    }
}

/// The rows of a group: its head, what is read, and what is folded away.
pub open spec fn group_rows(ctx: &GroupContext, factory: &RowFactory) -> Seq<RowView> {
    let doc = ctx.core.doc;
    let fold = fold_of(ctx.fold_open);
    group_header(doc, *ctx.group) + hunk_list(
        &ctx.core,
        factory,
        indices(shown(doc, *ctx.group, fold)),
    ) + fold_rows(*ctx.group, deferred(doc, *ctx.group, fold).len())
}

fn plain(ids: &Vec<HunkId>) -> (r: Vec<usize>)
    ensures
        r@ == indices(numbers(ids@)),
        r@.len() == ids@.len(),
        forall|i: int| 0 <= i < r@.len() ==> #[trigger] r@[i] == ids@[i].number(),
{
    let mut out: Vec<usize> = Vec::new();
    for i in 0..ids.len()
        invariant
            out@.len() == i,
            forall|k: int| 0 <= k < i ==> #[trigger] out@[k] == ids@[k].number(),
    {
        out.push(ids[i].index());
    }
    assert(out@ =~= indices(numbers(ids@)));
    out
}

/// Build the right-pane rows for one group.
pub fn build_group_rows(index: &PlanIndex, factory: &RowFactory, ctx: &GroupContext) -> (r: Vec<Row>)
    requires
        index.document() == *ctx.core.doc,
        group_ok(ctx.core.doc, *ctx.group),
    ensures
        row_views(r@) == group_rows(ctx, factory),
{
    let mut rows: Vec<Row> = Vec::new();
    assert(row_views(rows@) =~= Seq::empty());
    header_rows(index.groups(), ctx.core.doc, ctx.group, &mut rows);
    let fold = if ctx.fold_open {
        Fold::Unfolded
    } else {
        Fold::Folded
    };
    let split = reading_split(index, ctx.group, fold);
    let shown_hunks = plain(&split.shown);
    hunk_list_rows(factory, &ctx.core, &shown_hunks, &mut rows);
    let hidden = split.deferred.len();
    assert(numbers(split.deferred@).len() == hidden);
    if hidden > 0 {
        let mut text = "  ── ".to_owned();
        push_decimal(&mut text, hidden as u64);
        push_str(&mut text, " ");
        push_str(
            &mut text,
            if ctx.group.effort == Effort::Noise {
                "folded generated hunks"
            } else {
                "remaining hunks, same shapes as the exemplars above"
            },
        );
        push_str(&mut text, " — press z to unfold ──");
        push_row(&mut rows, Row::full(RowKind::Fold, Tone::Noise, text));
    }
    assert(row_views(rows@) =~= group_rows(ctx, factory));
    rows
}

/// Whether a row is a changed line of a hunk: one that differs, with its number among the
/// lines of the hunk on one of the two sides.
pub open spec fn is_changed_line_of(l: DiffLine, h: HunkEntry) -> bool {
    l.change_type != ChangeType::Equal && ((l.new_line matches Some(n) && exists|k: int|
        0 <= k < h.new_count && n.0 == #[trigger] counted(h.new_start as int, k)) || (
    l.old_line matches Some(o) && exists|k: int|
        0 <= k < h.old_count && o.0 == #[trigger] counted(h.old_start as int, k)))
}

/// The `k`-th line from a start on.
pub open spec fn counted(start: int, k: int) -> int {
    start + k
}

/// A hunk covers the rows from its first changed line to its last, and none where it has
/// no changed line among them.
pub proof fn law_a_hunk_covers_its_changed_lines(
    rows: &Vec<DiffLine>,
    hunk: &HunkEntry,
    r: Option<(usize, usize)>,
)
    requires
        call_ensures(hunk_row_range, (rows, hunk), r),
    ensures
        match r {
            Some((a, b)) => {
                &&& a <= b < rows@.len()
                &&& is_changed_line_of(rows@[a as int], *hunk)
                &&& is_changed_line_of(rows@[b as int], *hunk)
                &&& forall|i: int|
                    0 <= i < rows@.len() && is_changed_line_of(#[trigger] rows@[i], *hunk) ==> a
                        <= i <= b
            },
            None => forall|i: int|
                0 <= i < rows@.len() ==> !is_changed_line_of(#[trigger] rows@[i], *hunk),
        },
{
    assert forall|i: int| 0 <= i < rows@.len() implies (is_changed_line_of(
        #[trigger] rows@[i],
        *hunk,
    ) <==> is_hit(rows@[i], *hunk)) by {
        let l = rows@[i];
        if is_hit(l, *hunk) {
            if let Some(n) = l.new_line {
                if in_range(n.0, hunk.new_start, hunk.new_count) {
                    assert(n.0 == counted(hunk.new_start as int, n.0 - hunk.new_start));
                }
            }
            if let Some(o) = l.old_line {
                if in_range(o.0, hunk.old_start, hunk.old_count) {
                    assert(o.0 == counted(hunk.old_start as int, o.0 - hunk.old_start));
                }
            }
        }
    }
    lemma_first_hit(rows@, *hunk, 0);
    lemma_last_hit(rows@, *hunk, rows@.len());
}

proof fn lemma_first_hit(rows: Seq<DiffLine>, h: HunkEntry, from: int)
    requires
        0 <= from,
    ensures
        match first_hit(rows, h, from) {
            Some(k) => from <= k < rows.len() && is_hit(rows[k], h) && forall|i: int|
                from <= i < k ==> !is_hit(#[trigger] rows[i], h),
            None => forall|i: int| from <= i < rows.len() ==> !is_hit(#[trigger] rows[i], h),
        },
    decreases rows.len() - from,
{
    if from < rows.len() && !is_hit(rows[from], h) {
        lemma_first_hit(rows, h, from + 1);
    }
}

proof fn lemma_last_hit(rows: Seq<DiffLine>, h: HunkEntry, k: nat)
    requires
        k <= rows.len(),
    ensures
        match last_hit(rows, h, k) {
            Some(j) => 0 <= j < k && is_hit(rows[j], h) && forall|i: int|
                j < i < k ==> !is_hit(#[trigger] rows[i], h),
            None => forall|i: int| 0 <= i < k ==> !is_hit(#[trigger] rows[i], h),
        },
    decreases k,
{
    if k > 0 && !is_hit(rows[k - 1], h) {
        lemma_last_hit(rows, h, (k - 1) as nat);
    }
}

/// Hunks in file order are the same hunks, by file and, within a file, by line.
pub proof fn law_file_order_is_by_file_and_line(doc: &PlanDocument, hunks: Seq<usize>)
    requires
        hunks.len() <= usize::MAX,
    ensures
        in_file_order(doc, hunks).to_multiset() == hunks.to_multiset(),
        forall|a: int, b: int|
            0 <= a < b < hunks.len() ==> {
                let x = doc.hunks@[(#[trigger] in_file_order(doc, hunks)[a]) as int];
                let y = doc.hunks@[(#[trigger] in_file_order(doc, hunks)[b]) as int];
                &&& !chars_lt(y.file@, x.file@)
                &&& x.file@ == y.file@ ==> x.new_start <= y.new_start
            },
{
    let lt = |i: int, j: int| stands_before(doc, hunks[i], hunks[j]);
    lemma_stands_before(doc, hunks);
    lemma_stable_exists(hunks.len(), lt);
    let perm = stable_perm(hunks.len() as int, lt);
    let sorted = in_file_order(doc, hunks);
    assert forall|a: int, b: int| 0 <= a < b < perm.len() implies perm[a] != perm[b] by {
        assert(stable_before(lt, perm[a] as int, perm[b] as int));
    }
    lemma_perm_multiset(hunks, perm);
    assert(sorted =~= Seq::new(hunks.len(), |k: int| hunks[perm[k] as int]));
    assert forall|a: int, b: int| 0 <= a < b < hunks.len() implies ({
        let x = doc.hunks@[(#[trigger] sorted[a]) as int];
        let y = doc.hunks@[(#[trigger] sorted[b]) as int];
        &&& !chars_lt(y.file@, x.file@)
        &&& x.file@ == y.file@ ==> x.new_start <= y.new_start
    }) by {
        let (i, j) = (perm[a] as int, perm[b] as int);
        let x = doc.hunks@[sorted[a] as int];
        let y = doc.hunks@[sorted[b] as int];
        assert(stable_before(lt, i, j));
        assert(lt(i, j) == stands_before(doc, hunks[i], hunks[j]));
        assert(lt(j, i) == stands_before(doc, hunks[j], hunks[i]));
        lemma_chars_order(x.file@, y.file@, x.file@);
    }
}

/// The cursor can stand on what belongs to a hunk and on a fold, and on nothing else.
pub proof fn law_the_cursor_stands_on_hunks_and_folds(
    k: &RowKind,
    selectable: bool,
    hunk: Option<usize>,
)
    requires
        call_ensures(RowKind::selectable, (k,), selectable),
        call_ensures(RowKind::hunk, (k,), hunk),
    ensures
        selectable <==> hunk is Some || k is Fold,
        k matches RowKind::HunkHeader(h) ==> hunk == Some(*h),
        k matches RowKind::Diff(h) ==> hunk == Some(*h),
        k matches RowKind::Finding(_, h) ==> hunk == Some(*h),
        k is GroupHeader || k is FileHeader || k is Fold || k is Blank ==> hunk is None,
{
}

} // verus!
