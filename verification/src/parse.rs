//! The canonical patch: `diff-tree -r -U0 --no-renames` output, read by its line
//! counts.
//!
//! Every hunk in the system comes from here. The lines of a hunk are taken by the
//! counts of its header, never by their looks: a removed line may well begin with
//! `--`. A line that fits nowhere is an error, never passed over.
use vstd::prelude::*;
use vstd::string::*;
use vstd::utf8::encode_utf8;

use crate::invariants::{accounted, header_count, is_header, is_listed, owns_its_list};
use crate::model::{DiffView, Disposition, FileChange, Hunk};
use crate::paths::{header_path, parse_diff_git_path};
use crate::seqs::{bytes_eq, copy_bytes, split, split_bytes, views};
use crate::text::{lossy, lossy_text};
use crate::EngineError;

verus! {

// ---------------------------------------------------------------------------
// Hunks

/// The end of the run of digits that starts at a place.
pub open spec fn digits_end(s: Seq<u8>, i: int) -> int
    decreases s.len() - i,
{
    if 0 <= i < s.len() && 48 <= s[i] <= 57 {
        digits_end(s, i + 1)
    } else {
        i
    }
}

/// The number that the digits between two places spell.
pub open spec fn digits_value(s: Seq<u8>, i: int, end: int) -> nat
    decreases end - i,
{
    if end <= i {
        0
    } else {
        10 * digits_value(s, i, end - 1) + (s[end - 1] - 48) as nat
    }
}

/// The number at a place and the place behind it.
pub open spec fn number_at(s: Seq<u8>, i: int) -> Option<(u32, int)> {
    let end = digits_end(s, i);
    if end == i || digits_value(s, i, end) > u32::MAX {
        None
    } else {
        Some((digits_value(s, i, end) as u32, end))
    }
}

/// A line range `start[,count]` at a place, and the place behind it. Without a count
/// it is one line.
pub open spec fn range_at(s: Seq<u8>, i: int) -> Option<(u32, u32, int)> {
    match number_at(s, i) {
        None => None,
        Some((start, e)) => if e < s.len() && s[e] == 44 {
            match number_at(s, e + 1) {
                Some((count, f)) => Some((start, count, f)),
                None => None,
            }
        } else {
            Some((start, 1, e))
        },
    }
}

/// Whether a line starts a hunk: `@@ -`.
pub open spec fn starts_hunk(l: Seq<u8>) -> bool {
    l.len() >= 4 && l[0] == 64 && l[1] == 64 && l[2] == 32 && l[3] == 45
}

/// The ranges of a hunk's header: `@@ -a,b +c,d @@`.
pub open spec fn header_ranges(l: Seq<u8>) -> Option<(u32, u32, u32, u32)> {
    match range_at(l, 4) {
        None => None,
        Some((a, b, e)) => if e + 1 < l.len() && l[e] == 32 && l[e + 1] == 43 {
            match range_at(l, e + 2) {
                None => None,
                Some((c, d, f)) => if f + 2 < l.len() && l[f] == 32 && l[f + 1] == 64 && l[f + 2]
                    == 64 {
                    Some((a, b, c, d))
                } else {
                    None
                },
            }
        } else {
            None
        },
    }
}

/// Whether `n` lines from a place on carry a mark.
pub open spec fn all_marked(ls: Seq<Seq<u8>>, i: int, mark: u8, n: int) -> bool {
    i + n <= ls.len() && forall|k: int|
        i <= k < i + n ==> (#[trigger] ls[k]).len() > 0 && ls[k][0] == mark
}

/// `n` lines from a place on, without their marks.
pub open spec fn unmarked(ls: Seq<Seq<u8>>, i: int, n: int) -> Seq<Seq<u8>> {
    Seq::new(n as nat, |k: int| ls[i + k].skip(1))
}

/// Whether the line at a place says that the side above it ends without a newline.
pub open spec fn no_newline_at(ls: Seq<Seq<u8>>, i: int) -> bool {
    i < ls.len() && ls[i].len() > 0 && ls[i][0] == 92
}

/// One hunk of a patch.
pub struct HunkText {
    pub old_start: u32,
    pub old_count: u32,
    pub new_start: u32,
    pub new_count: u32,
    pub removed: Seq<Seq<u8>>,
    pub added: Seq<Seq<u8>>,
    pub nonl_old: bool,
    pub nonl_new: bool,
}

/// The hunk at a place and the place behind it; else the place where it cannot be
/// read.
pub open spec fn hunk_at(ls: Seq<Seq<u8>>, i: int) -> Result<(HunkText, int), int> {
    match header_ranges(ls[i]) {
        None => Err(i),
        Some((a, b, c, d)) => if !all_marked(ls, i + 1, 45, b as int) {
            Err(i)
        } else {
            let p = i + 1 + b;
            let nonl_old = b > 0 && no_newline_at(ls, p);
            let q = if nonl_old {
                p + 1
            } else {
                p
            };
            if !all_marked(ls, q, 43, d as int) {
                Err(i)
            } else {
                let r = q + d;
                let nonl_new = d > 0 && no_newline_at(ls, r);
                Ok(
                    (
                        HunkText {
                            old_start: a,
                            old_count: b,
                            new_start: c,
                            new_count: d,
                            removed: unmarked(ls, i + 1, b as int),
                            added: unmarked(ls, q, d as int),
                            nonl_old,
                            nonl_new,
                        },
                        if nonl_new {
                            r + 1
                        } else {
                            r
                        },
                    ),
                )
            }
        },
    }
}

/// Whether a hunk is one of a patch, in a file.
pub open spec fn is_hunk(h: Hunk, t: HunkText, file: int) -> bool {
    &&& h.file == file
    &&& h.old_start == t.old_start
    &&& h.old_count == t.old_count
    &&& h.new_start == t.new_start
    &&& h.new_count == t.new_count
    &&& views(h.removed@) == t.removed
    &&& views(h.added@) == t.added
    &&& h.nonl_old == t.nonl_old
    &&& h.nonl_new == t.nonl_new
}

/// A long run of digits spells at least what its start spells.
proof fn lemma_digits_grow(s: Seq<u8>, i: int, k: int, end: int)
    requires
        0 <= i <= k <= end <= s.len(),
        forall|x: int| i <= x < end ==> 48 <= #[trigger] s[x] <= 57,
    ensures
        digits_value(s, i, k) <= digits_value(s, i, end),
    decreases end - k,
{
    if k < end {
        lemma_digits_grow(s, i, k, end - 1);
    }
}

proof fn lemma_digits_end(s: Seq<u8>, i: int)
    requires
        0 <= i <= s.len(),
    ensures
        i <= digits_end(s, i) <= s.len(),
        forall|x: int| i <= x < digits_end(s, i) ==> 48 <= #[trigger] s[x] <= 57,
    decreases s.len() - i,
{
    if i < s.len() && 48 <= s[i] <= 57 {
        lemma_digits_end(s, i + 1);
    }
}

fn read_number(s: &Vec<u8>, i: usize) -> (r: Option<(u32, usize)>)
    requires
        i <= s@.len(),
    ensures
        match r {
            Some((n, e)) => number_at(s@, i as int) == Some((n, e as int)) && e <= s@.len(),
            None => number_at(s@, i as int) is None,
        },
{
    let mut k: usize = i;
    let mut value: u64 = 0;
    let ghost end = digits_end(s@, i as int);
    proof {
        lemma_digits_end(s@, i as int);
    }
    while k < s.len() && s[k] >= 48 && s[k] <= 57
        invariant
            i <= k <= end <= s@.len(),
            end == digits_end(s@, i as int),
            end == digits_end(s@, k as int),
            forall|x: int| i <= x < end ==> 48 <= #[trigger] s@[x] <= 57,
            value == digits_value(s@, i as int, k as int),
            value <= u32::MAX,
        decreases s@.len() - k,
    {
        proof {
            lemma_digits_end(s@, k + 1);
            lemma_digits_grow(s@, i as int, k + 1, end);
        }
        value = value * 10 + (s[k] - 48) as u64;
        if value > u32::MAX as u64 {
            return None;
        }
        k = k + 1;
    }
    if k == i {
        return None;
    }
    Some((value as u32, k))
}

fn read_range(s: &Vec<u8>, i: usize) -> (r: Option<(u32, u32, usize)>)
    requires
        i <= s@.len(),
    ensures
        match r {
            Some((a, b, e)) => range_at(s@, i as int) == Some((a, b, e as int)) && e <= s@.len(),
            None => range_at(s@, i as int) is None,
        },
{
    match read_number(s, i) {
        None => None,
        Some((start, e)) => {
            if e < s.len() && s[e] == 44 {
                match read_number(s, e + 1) {
                    Some((count, f)) => Some((start, count, f)),
                    None => None,
                }
            } else {
                Some((start, 1, e))
            }
        },
    }
}

fn read_header(l: &Vec<u8>) -> (r: Option<(u32, u32, u32, u32)>)
    requires
        starts_hunk(l@),
    ensures
        r == header_ranges(l@),
{
    let (a, b, e) = match read_range(l, 4) {
        Some(x) => x,
        None => {
            return None;
        },
    };
    let n = l.len();
    if !(n - e > 1 && l[e] == 32 && l[e + 1] == 43) {
        return None;
    }
    let (c, d, f) = match read_range(l, e + 2) {
        Some(x) => x,
        None => {
            return None;
        },
    };
    if n - f > 2 && l[f] == 32 && l[f + 1] == 64 && l[f + 2] == 64 {
        Some((a, b, c, d))
    } else {
        None
    }
}

fn is_hunk_start(l: &Vec<u8>) -> (r: bool)
    ensures
        r == starts_hunk(l@),
{
    l.len() >= 4 && l[0] == 64 && l[1] == 64 && l[2] == 32 && l[3] == 45
}

/// Take `n` marked lines from a place on.
fn take_marked(lines: &Vec<Vec<u8>>, i: usize, mark: u8, n: u32) -> (r: Option<Vec<Vec<u8>>>)
    requires
        i <= lines@.len(),
    ensures
        match r {
            Some(v) => all_marked(views(lines@), i as int, mark, n as int) && views(v@)
                == unmarked(views(lines@), i as int, n as int),
            None => !all_marked(views(lines@), i as int, mark, n as int),
        },
{
    let ghost ls = views(lines@);
    if (lines.len() - i) as u64 >= n as u64 {
        let mut out: Vec<Vec<u8>> = Vec::new();
        let end: usize = i + n as usize;
        for k in i..end
            invariant
                ls == views(lines@),
                end == i + n,
                end <= lines@.len(),
                out@.len() == k - i,
                forall|x: int| i <= x < k ==> (#[trigger] ls[x]).len() > 0 && ls[x][0] == mark,
                forall|x: int|
                    0 <= x < k - i ==> (#[trigger] out@[x])@ == ls[i + x].skip(1),
        {
            let l = &lines[k];
            assert(ls[k as int] == l@);
            if l.len() == 0 || l[0] != mark {
                return None;
            }
            let rest = vstd::slice::slice_subrange(l.as_slice(), 1, l.len());
            let piece = copy_bytes(rest);
            assert(piece@ =~= l@.skip(1));
            out.push(piece);
        }
        assert(views(out@) =~= unmarked(ls, i as int, n as int));
        Some(out)
    } else {
        None
    }
}

fn is_no_newline(lines: &Vec<Vec<u8>>, i: usize) -> (r: bool)
    ensures
        r == no_newline_at(views(lines@), i as int),
{
    if i < lines.len() {
        assert(views(lines@)[i as int] == lines@[i as int]@);
        lines[i].len() > 0 && lines[i][0] == 92
    } else {
        false
    }
}

/// Read the hunk at a place.
fn read_hunk(lines: &Vec<Vec<u8>>, i: usize, file: usize) -> (r: Result<(Hunk, usize), usize>)
    requires
        i < lines@.len(),
        starts_hunk(lines@[i as int]@),
    ensures
        match r {
            Ok((h, next)) => hunk_at(views(lines@), i as int) matches Ok((t, n)) && n == next
                && is_hunk(h, t, file as int) && i < next <= lines@.len(),
            Err(at) => hunk_at(views(lines@), i as int) == Err::<(HunkText, int), int>(at as int),
        },
{
    let ghost ls = views(lines@);
    let total = lines.len();
    assert(ls.len() == total);
    assert(ls[i as int] == lines@[i as int]@);
    let (a, b, c, d) = match read_header(&lines[i]) {
        Some(x) => x,
        None => {
            return Err(i);
        },
    };
    let removed = match take_marked(lines, i + 1, 45, b) {
        Some(v) => v,
        None => {
            return Err(i);
        },
    };
    assert(i + 1 + b <= total);
    let p: usize = i + 1 + b as usize;
    let nonl_old = b > 0 && is_no_newline(lines, p);
    let q: usize = if nonl_old {
        p + 1
    } else {
        p
    };
    let added = match take_marked(lines, q, 43, d) {
        Some(v) => v,
        None => {
            return Err(i);
        },
    };
    assert(q + d <= total);
    let e: usize = q + d as usize;
    let nonl_new = d > 0 && is_no_newline(lines, e);
    let next: usize = if nonl_new {
        e + 1
    } else {
        e
    };
    let h = Hunk {
        file,
        old_start: a,
        old_count: b,
        new_start: c,
        new_count: d,
        removed,
        added,
        nonl_old,
        nonl_new,
    };
    Ok((h, next))
}

// ---------------------------------------------------------------------------
// Files

/// What the header of a file says.
pub struct Meta {
    pub old_mode: Option<Seq<u8>>,
    pub added: bool,
    pub deleted: bool,
    pub binary: bool,
    pub gitlink: bool,
}

/// The bytes of `diff --git `.
pub open spec fn diff_mark() -> Seq<u8> {
    encode_utf8("diff --git "@)
}

/// Whether bytes start with others.
pub open spec fn starts(l: Seq<u8>, mark: Seq<u8>) -> bool {
    mark.len() <= l.len() && l.take(mark.len() as int) == mark
}

/// Whether bytes end with others.
pub open spec fn ends(l: Seq<u8>, mark: Seq<u8>) -> bool {
    mark.len() <= l.len() && l.skip(l.len() - mark.len()) == mark
}

/// What a header line adds to what is known of a file.
pub open spec fn noted(m: Meta, l: Seq<u8>) -> Meta {
    let link = ends(l, encode_utf8(" 160000"@));
    if starts(l, encode_utf8("old mode "@)) {
        Meta { old_mode: Some(l.skip(encode_utf8("old mode "@).len() as int)), ..m }
    } else if starts(l, encode_utf8("new file mode "@)) {
        Meta { added: true, gitlink: m.gitlink || link, ..m }
    } else if starts(l, encode_utf8("deleted file mode "@)) {
        Meta { deleted: true, gitlink: m.gitlink || link, ..m }
    } else if starts(l, encode_utf8("index "@)) {
        Meta { gitlink: m.gitlink || link, ..m }
    } else if starts(l, encode_utf8("Binary files "@)) {
        Meta { binary: true, ..m }
    } else {
        m
    }
}

/// Whether the header of a file ends before a place.
pub open spec fn head_ends(ls: Seq<Seq<u8>>, i: int) -> bool {
    i >= ls.len() || starts_hunk(ls[i]) || starts(ls[i], diff_mark())
}

/// What the header lines from a place on say, and the place behind them.
pub open spec fn head_from(ls: Seq<Seq<u8>>, i: int, m: Meta) -> (Meta, int)
    decreases ls.len() - i,
{
    if head_ends(ls, i) {
        (m, i)
    } else {
        head_from(ls, i + 1, noted(m, ls[i]))
    }
}

/// The hunks from a place on, and the place behind them.
pub open spec fn hunks_from(ls: Seq<Seq<u8>>, i: int) -> Result<(Seq<HunkText>, int), int>
    decreases ls.len() - i,
{
    if i >= ls.len() || !starts_hunk(ls[i]) {
        Ok((Seq::empty(), i))
    } else {
        match hunk_at(ls, i) {
            Err(at) => Err(at),
            Ok((h, next)) => if next <= i {
                Err(i)
            } else {
                match hunks_from(ls, next) {
                    Err(at) => Err(at),
                    Ok((rest, end)) => Ok((seq![h] + rest, end)),
                }
            },
        }
    }
}

/// One file of a patch, or one section of it.
pub struct FileText {
    pub path: Seq<u8>,
    pub meta: Meta,
    pub hunks: Seq<HunkText>,
}

/// Nothing known of a file yet.
pub open spec fn no_meta() -> Meta {
    Meta { old_mode: None, added: false, deleted: false, binary: false, gitlink: false }
}

/// The section at a place and the place behind it.
pub open spec fn file_at(ls: Seq<Seq<u8>>, i: int) -> Result<(FileText, int), int> {
    match header_path(ls[i].skip(diff_mark().len() as int)) {
        None => Err(i),
        Some(path) => {
            let (meta, j) = head_from(ls, i + 1, no_meta());
            match hunks_from(ls, j) {
                Err(at) => Err(at),
                Ok((hunks, end)) => Ok((FileText { path, meta, hunks }, end)),
            }
        },
    }
}

/// Whether nothing but the end of the last line follows.
pub open spec fn at_end(ls: Seq<Seq<u8>>, i: int) -> bool {
    i >= ls.len() || (i == ls.len() - 1 && ls[i].len() == 0)
}

/// The sections from a place on; else the place that cannot be read.
pub open spec fn files_from(ls: Seq<Seq<u8>>, i: int) -> Result<Seq<FileText>, int>
    decreases ls.len() - i,
{
    if at_end(ls, i) {
        Ok(Seq::empty())
    } else if !starts(ls[i], diff_mark()) {
        Err(i)
    } else {
        match file_at(ls, i) {
            Err(at) => Err(at),
            Ok((f, next)) => if next <= i || next > ls.len() {
                Err(i)
            } else {
                match files_from(ls, next) {
                    Err(at) => Err(at),
                    Ok(rest) => Ok(seq![f] + rest),
                }
            },
        }
    }
}

/// A section joined to the one before it, of the same path. A path that changes what
/// it is (a file that becomes a symbolic link) is printed as a deletion and a
/// creation; together they are one modified file with the hunks of both.
pub open spec fn joined(a: FileText, b: FileText) -> FileText {
    FileText {
        path: a.path,
        meta: Meta {
            old_mode: if a.meta.old_mode is Some {
                a.meta.old_mode
            } else {
                b.meta.old_mode
            },
            added: false,
            deleted: false,
            binary: a.meta.binary || b.meta.binary,
            gitlink: a.meta.gitlink || b.meta.gitlink,
        },
        hunks: a.hunks + b.hunks,
    }
}

/// The files that sections make: neighbours of one path are one file.
pub open spec fn merged(sections: Seq<FileText>) -> Seq<FileText>
    decreases sections.len(),
{
    if sections.len() == 0 {
        Seq::empty()
    } else {
        let before = merged(sections.drop_last());
        let t = sections.last();
        if before.len() > 0 && before.last().path == t.path {
            before.drop_last().push(joined(before.last(), t))
        } else {
            before.push(t)
        }
    }
}

/// The files of a patch; else the place that cannot be read.
pub open spec fn patch_files(patch: Seq<u8>) -> Result<Seq<FileText>, int> {
    match files_from(split(patch, 10u8), 0) {
        Ok(sections) => Ok(merged(sections)),
        Err(at) => Err(at),
    }
}

/// What is wrong with a patch that cannot be read from a place on.
pub open spec fn fault_from(ls: Seq<Seq<u8>>, i: int) -> Seq<char>
    decreases ls.len() - i,
{
    if at_end(ls, i) {
        Seq::empty()
    } else if !starts(ls[i], diff_mark()) {
        "expected the header of a file"@
    } else if header_path(ls[i].skip(diff_mark().len() as int)) is None {
        "cannot read the path of a file"@
    } else {
        match file_at(ls, i) {
            Err(_) => "cannot read a hunk"@,
            Ok((_, next)) => if next <= i || next > ls.len() {
                Seq::empty()
            } else {
                fault_from(ls, next)
            },
        }
    }
}

/// What is wrong with a patch that cannot be read.
pub open spec fn patch_fault(patch: Seq<u8>) -> Seq<char> {
    fault_from(split(patch, 10u8), 0)
}

/// How many hunks the first `k` files have.
pub open spec fn hunks_before(files: Seq<FileText>, k: nat) -> nat
    decreases k,
{
    if k == 0 {
        0
    } else {
        hunks_before(files, (k - 1) as nat) + files[k - 1].hunks.len()
    }
}

/// The bytes of a submodule's line.
pub open spec fn link_mark() -> Seq<u8> {
    encode_utf8("Subproject commit "@)
}

/// The commit that a submodule's line names.
pub open spec fn link_in(lines: Seq<Seq<u8>>) -> Option<Seq<char>> {
    if lines.len() > 0 && starts(lines[0], link_mark()) {
        Some(lossy_text(lines[0].skip(link_mark().len() as int)))
    } else {
        None
    }
}

/// An optional text.
pub open spec fn opt_text(o: Option<String>) -> Option<Seq<char>> {
    match o {
        Some(s) => Some(s@),
        None => None,
    }
}

/// The commits of a submodule: what its first hunk removes and its last one adds.
pub open spec fn is_link(s: Option<(Option<String>, Option<String>)>, t: FileText) -> bool {
    if !t.meta.gitlink {
        s is None
    } else {
        s matches Some((old, new)) && opt_text(old) == (if t.hunks.len() > 0 {
            link_in(t.hunks[0].removed)
        } else {
            None
        }) && opt_text(new) == (if t.hunks.len() > 0 {
            link_in(t.hunks.last().added)
        } else {
            None
        })
    }
}

/// Whether a file is one of a patch, with its hunks from number `base` on.
pub open spec fn is_file(f: FileChange, t: FileText, base: int) -> bool {
    &&& f.path@ == t.path
    &&& f.disposition == (if t.meta.added {
        Disposition::Added
    } else if t.meta.deleted {
        Disposition::Deleted
    } else {
        Disposition::Modified
    })
    &&& f.new_mode is None
    &&& opt_text(f.old_mode) == (match t.meta.old_mode {
        Some(m) => Some(lossy_text(m)),
        None => None,
    })
    &&& f.binary == t.meta.binary
    &&& is_link(f.submodule, t)
    &&& f.old_oid is None
    &&& f.new_oid is None
    &&& f.hunks@.len() == t.hunks.len()
    &&& forall|k: int| 0 <= k < f.hunks@.len() ==> #[trigger] f.hunks@[k] == base + k
    &&& f.rename_similarity is None
    &&& f.rename_from is None
    &&& f.rename_to is None
    &&& f.generated is None
}

/// Whether a view is the one of some files: every file, every hunk, in order.
pub open spec fn is_view_of(v: DiffView, files: Seq<FileText>) -> bool {
    &&& v.files@.len() == files.len()
    &&& v.hunks@.len() == hunks_before(files, files.len())
    &&& forall|f: int|
        0 <= f < files.len() ==> is_file(
            #[trigger] v.files@[f],
            files[f],
            hunks_before(files, f as nat) as int,
        )
    &&& forall|f: int, k: int|
        0 <= f < files.len() && 0 <= k < files[f].hunks.len() ==> is_hunk(
            v.hunks@[hunks_before(files, f as nat) + k],
            #[trigger] files[f].hunks[k],
            f,
        )
}

fn has_prefix(l: &Vec<u8>, mark: &[u8]) -> (r: bool)
    ensures
        r == starts(l@, mark@),
{
    if mark.len() > l.len() {
        return false;
    }
    bytes_eq(vstd::slice::slice_subrange(l.as_slice(), 0, mark.len()), mark)
}

fn has_suffix(l: &Vec<u8>, mark: &[u8]) -> (r: bool)
    ensures
        r == ends(l@, mark@),
{
    if mark.len() > l.len() {
        return false;
    }
    let from = l.len() - mark.len();
    let tail = vstd::slice::slice_subrange(l.as_slice(), from, l.len());
    assert(tail@ =~= l@.skip(from as int));
    bytes_eq(tail, mark)
}

fn rest_of(l: &Vec<u8>, n: usize) -> (r: Vec<u8>)
    requires
        n <= l@.len(),
    ensures
        r@ == l@.skip(n as int),
{
    let tail = vstd::slice::slice_subrange(l.as_slice(), n, l.len());
    assert(tail@ =~= l@.skip(n as int));
    copy_bytes(tail)
}

/// What the header of a file says, as it is read.
struct Head {
    old_mode: Option<Vec<u8>>,
    added: bool,
    deleted: bool,
    binary: bool,
    gitlink: bool,
}

spec fn meta_of(h: Head) -> Meta {
    Meta {
        old_mode: match h.old_mode {
            Some(m) => Some(m@),
            None => None,
        },
        added: h.added,
        deleted: h.deleted,
        binary: h.binary,
        gitlink: h.gitlink,
    }
}

fn note(h: Head, l: &Vec<u8>) -> (r: Head)
    ensures
        meta_of(r) == noted(meta_of(h), l@),
{
    let mut h = h;
    let link = has_suffix(l, " 160000".as_bytes());
    if has_prefix(l, "old mode ".as_bytes()) {
        h.old_mode = Some(rest_of(l, "old mode ".as_bytes().len()));
    } else if has_prefix(l, "new file mode ".as_bytes()) {
        h.added = true;
        h.gitlink = h.gitlink || link;
    } else if has_prefix(l, "deleted file mode ".as_bytes()) {
        h.deleted = true;
        h.gitlink = h.gitlink || link;
    } else if has_prefix(l, "index ".as_bytes()) {
        h.gitlink = h.gitlink || link;
    } else if has_prefix(l, "Binary files ".as_bytes()) {
        h.binary = true;
    }
    h
}

fn read_head(lines: &Vec<Vec<u8>>, i: usize) -> (r: (Head, usize))
    requires
        i <= lines@.len(),
    ensures
        head_from(views(lines@), i as int, no_meta()) == (meta_of(r.0), r.1 as int),
        i <= r.1 <= lines@.len(),
{
    let ghost ls = views(lines@);
    let mut h = Head {
        old_mode: None,
        added: false,
        deleted: false,
        binary: false,
        gitlink: false,
    };
    let mut k: usize = i;
    while k < lines.len() && !is_hunk_start(&lines[k]) && !has_prefix(
        &lines[k],
        "diff --git ".as_bytes(),
    )
        invariant
            ls == views(lines@),
            i <= k <= lines@.len(),
            head_from(ls, i as int, no_meta()) == head_from(ls, k as int, meta_of(h)),
        decreases lines@.len() - k,
    {
        assert(ls[k as int] == lines@[k as int]@);
        h = note(h, &lines[k]);
        k = k + 1;
    }
    if k < lines.len() {
        assert(ls[k as int] == lines@[k as int]@);
    }
    (h, k)
}

/// Read the hunks from a place on, behind those that were read before.
fn read_hunks(lines: &Vec<Vec<u8>>, i: usize, file: usize, hunks: &mut Vec<Hunk>) -> (r: Result<
    usize,
    usize,
>)
    requires
        i <= lines@.len(),
    ensures
        match r {
            Ok(end) => hunks_from(views(lines@), i as int) matches Ok((ts, e)) && e == end && i
                <= end <= lines@.len() && final(hunks)@.len() == old(hunks)@.len() + ts.len() && (
            forall|k: int|
                0 <= k < old(hunks)@.len() ==> #[trigger] final(hunks)@[k] == old(hunks)@[k]) && (
            forall|k: int|
                0 <= k < ts.len() ==> is_hunk(
                    final(hunks)@[old(hunks)@.len() + k],
                    #[trigger] ts[k],
                    file as int,
                )),
            Err(at) => hunks_from(views(lines@), i as int) == Err::<(Seq<HunkText>, int), int>(
                at as int,
            ),
        },
{
    let ghost ls = views(lines@);
    let ghost base = hunks@.len();
    let ghost mut done: Seq<HunkText> = Seq::empty();
    let mut k: usize = i;
    while k < lines.len() && is_hunk_start(&lines[k])
        invariant
            ls == views(lines@),
            i <= k <= lines@.len(),
            base == old(hunks)@.len(),
            hunks@.len() == base + done.len(),
            forall|x: int| 0 <= x < base ==> #[trigger] hunks@[x] == old(hunks)@[x],
            forall|x: int|
                0 <= x < done.len() ==> is_hunk(hunks@[base + x], #[trigger] done[x], file as int),
            match hunks_from(ls, k as int) {
                Ok((rest, end)) => hunks_from(ls, i as int) == Ok::<(Seq<HunkText>, int), int>(
                    (done + rest, end),
                ),
                Err(at) => hunks_from(ls, i as int) == Err::<(Seq<HunkText>, int), int>(at),
            },
        decreases lines@.len() - k,
    {
        assert(ls[k as int] == lines@[k as int]@);
        match read_hunk(lines, k, file) {
            Err(at) => {
                return Err(at);
            },
            Ok((h, next)) => {
                let ghost t = hunk_at(ls, k as int)->Ok_0.0;
                let ghost was = hunks@;
                hunks.push(h);
                proof {
                    if let Ok((rest, end)) = hunks_from(ls, next as int) {
                        assert(done + (seq![t] + rest) =~= done.push(t) + rest);
                    }
                    done = done.push(t);
                    assert forall|x: int| 0 <= x < done.len() implies is_hunk(
                        hunks@[base + x],
                        #[trigger] done[x],
                        file as int,
                    ) by {
                        if x < done.len() - 1 {
                            assert(hunks@[base + x] == was[base + x]);
                        }
                    }
                }
                k = next;
            },
        }
    }
    proof {
        if k < lines@.len() {
            assert(ls[k as int] == lines@[k as int]@);
        }
        assert(done + Seq::<HunkText>::empty() =~= done);
    }
    Ok(k)
}

fn link_of(lines: &Vec<Vec<u8>>) -> (r: Option<String>)
    ensures
        opt_text(r) == link_in(views(lines@)),
{
    if lines.len() > 0 {
        assert(views(lines@)[0] == lines@[0]@);
        if has_prefix(&lines[0], "Subproject commit ".as_bytes()) {
            let rest = rest_of(&lines[0], "Subproject commit ".as_bytes().len());
            return Some(lossy(rest.as_slice()));
        }
    }
    None
}

fn parse_error(at: usize, msg: &str) -> (r: EngineError)
    requires
        at < usize::MAX,
    ensures
        r matches EngineError::Parse { line, msg: m } && line == at + 1 && m@ == msg@,
{
    EngineError::Parse { line: at + 1, msg: msg.to_owned() }
}

/// The commits of a submodule, from its hunks.
fn links_of(hunks: &Vec<Hunk>, list: &Vec<usize>, gitlink: bool, Ghost(t): Ghost<FileText>) -> (r:
    Option<(Option<String>, Option<String>)>)
    requires
        gitlink == t.meta.gitlink,
        list@.len() == t.hunks.len(),
        forall|k: int|
            0 <= k < list@.len() ==> (#[trigger] list@[k]) < hunks@.len() && views(
                hunks@[list@[k] as int].removed@,
            ) == t.hunks[k].removed && views(hunks@[list@[k] as int].added@) == t.hunks[k].added,
    ensures
        is_link(r, t),
{
    if !gitlink {
        None
    } else if list.len() == 0 {
        Some((None, None))
    } else {
        Some((link_of(&hunks[list[0]].removed), link_of(&hunks[list[list.len() - 1]].added)))
    }
}

/// The file of a section that starts one.
fn new_file(
    path: Vec<u8>,
    head: &Head,
    hunks: &Vec<Hunk>,
    base: usize,
    Ghost(file): Ghost<int>,
    Ghost(t): Ghost<FileText>,
) -> (r: FileChange)
    requires
        path@ == t.path,
        meta_of(*head) == t.meta,
        hunks@.len() == base + t.hunks.len(),
        forall|k: int|
            0 <= k < t.hunks.len() ==> is_hunk(
                hunks@[base + k],
                #[trigger] t.hunks[k],
                file,
            ),
    ensures
        is_file(r, t, base as int),
{
    let n = hunks.len() - base;
    let mut indices: Vec<usize> = Vec::new();
    for k in 0..n
        invariant
            base + n == hunks@.len(),
            indices@.len() == k,
            forall|x: int| 0 <= x < k ==> #[trigger] indices@[x] == base + x,
    {
        assert(base + k < hunks.len());
        indices.push(base + k);
    }
    assert forall|k: int| 0 <= k < indices@.len() implies (#[trigger] indices@[k]) < hunks@.len()
        && views(hunks@[indices@[k] as int].removed@) == t.hunks[k].removed && views(
        hunks@[indices@[k] as int].added@,
    ) == t.hunks[k].added by {
        assert(is_hunk(hunks@[base + k], t.hunks[k], file));
    }
    let submodule = links_of(hunks, &indices, head.gitlink, Ghost(t));
    let disposition = if head.added {
        Disposition::Added
    } else if head.deleted {
        Disposition::Deleted
    } else {
        Disposition::Modified
    };
    FileChange {
        path,
        disposition,
        new_mode: None,
        old_mode: mode_text(&head.old_mode),
        binary: head.binary,
        submodule,
        old_oid: None,
        new_oid: None,
        hunks: indices,
        rename_similarity: None,
        rename_from: None,
        rename_to: None,
        generated: None,
    }
}

fn mode_text(m: &Option<Vec<u8>>) -> (r: Option<String>)
    ensures
        opt_text(r) == (match *m {
            Some(b) => Some(lossy_text(b@)),
            None => None,
        }),
{
    match m {
        Some(b) => Some(lossy(b.as_slice())),
        None => None,
    }
}

/// A file with a further section of its path.
fn joined_file(
    first: FileChange,
    head: &Head,
    hunks: &Vec<Hunk>,
    base: usize,
    Ghost(file): Ghost<int>,
    Ghost(a): Ghost<FileText>,
    Ghost(b): Ghost<FileText>,
) -> (r: FileChange)
    requires
        a.hunks.len() <= base,
        is_file(first, a, base - a.hunks.len()),
        meta_of(*head) == b.meta,
        hunks@.len() == base + b.hunks.len(),
        forall|k: int|
            0 <= k < a.hunks.len() ==> is_hunk(
                hunks@[base - a.hunks.len() + k],
                #[trigger] a.hunks[k],
                file,
            ),
        forall|k: int|
            0 <= k < b.hunks.len() ==> is_hunk(hunks@[base + k], #[trigger] b.hunks[k], file),
    ensures
        is_file(r, joined(a, b), base - a.hunks.len()),
{
    let ghost t = joined(a, b);
    let ghost from = base - a.hunks.len();
    let gitlink = first.submodule.is_some() || head.gitlink;
    let old_mode = match first.old_mode {
        Some(m) => Some(m),
        None => mode_text(&head.old_mode),
    };
    let n = hunks.len() - base;
    let mut indices = first.hunks;
    for k in 0..n
        invariant
            base + n == hunks@.len(),
            from == base - a.hunks.len(),
            indices@.len() == a.hunks.len() + k,
            forall|x: int| 0 <= x < indices@.len() ==> #[trigger] indices@[x] == from + x,
    {
        assert(base + k < hunks.len());
        indices.push(base + k);
    }
    assert forall|k: int| 0 <= k < indices@.len() implies (#[trigger] indices@[k]) < hunks@.len()
        && views(hunks@[indices@[k] as int].removed@) == t.hunks[k].removed && views(
        hunks@[indices@[k] as int].added@,
    ) == t.hunks[k].added by {
        if k < a.hunks.len() {
            assert(t.hunks[k] == a.hunks[k]);
            assert(is_hunk(hunks@[from + k], a.hunks[k], file));
        } else {
            let x = k - a.hunks.len();
            assert(t.hunks[k] == b.hunks[x]);
            assert(is_hunk(hunks@[base + x], b.hunks[x], file));
        }
    }
    let submodule = links_of(hunks, &indices, gitlink, Ghost(t));
    FileChange {
        path: first.path,
        disposition: Disposition::Modified,
        new_mode: None,
        old_mode,
        binary: first.binary || head.binary,
        submodule,
        old_oid: None,
        new_oid: None,
        hunks: indices,
        rename_similarity: None,
        rename_from: None,
        rename_to: None,
        generated: None,
    }
}

/// Read the canonical patch: every file and every hunk, in order, or the first line
/// that cannot be read, counted from 1.
pub fn parse_canonical(patch: &[u8]) -> (r: Result<DiffView, EngineError>)
    ensures
        match r {
            Ok(v) => patch_files(patch@) matches Ok(files) && is_view_of(v, files) && v.wf(),
            Err(e) => patch_files(patch@) matches Err(at) && (e matches EngineError::Parse {
                line,
                msg,
            } && line == at + 1 && msg@ == patch_fault(patch@)),
        },
{
    let lines = split_bytes(patch, 10u8);
    let ghost ls = split(patch@, 10u8);
    let total = lines.len();
    let mut view = DiffView { files: Vec::new(), hunks: Vec::new() };
    let ghost mut done: Seq<FileText> = Seq::empty();
    let mut i: usize = 0;
    while !(i >= total || (i == total - 1 && lines[i].len() == 0))
        invariant
            ls == views(lines@),
            ls == split(patch@, 10u8),
            total == lines@.len(),
            total >= 1,
            i <= total,
            is_view_of(view, merged(done)),
            view.wf(),
            patch_fault(patch@) == fault_from(ls, i as int),
            match files_from(ls, i as int) {
                Ok(rest) => files_from(ls, 0) == Ok::<Seq<FileText>, int>(done + rest),
                Err(at) => files_from(ls, 0) == Err::<Seq<FileText>, int>(at),
            },
        decreases total - i,
    {
        assert(ls[i as int] == lines@[i as int]@);
        let l = &lines[i];
        if !has_prefix(l, "diff --git ".as_bytes()) {
            return Err(parse_error(i, "expected the header of a file"));
        }
        let path = match parse_diff_git_path(
            rest_of(l, "diff --git ".as_bytes().len()).as_slice(),
        ) {
            Some(p) => p,
            None => {
                return Err(parse_error(i, "cannot read the path of a file"));
            },
        };
        let (head, j) = read_head(&lines, i + 1);
        let count = view.files.len();
        let joins = count > 0 && bytes_eq(&view.files[count - 1].path, &path);
        let file: usize = if joins {
            count - 1
        } else {
            count
        };
        let base = view.hunks.len();
        let ghost before = view;
        let ghost had = merged(done);
        proof {
            if joins {
                assert(is_file(
                    view.files@[count - 1],
                    had[count - 1],
                    hunks_before(had, (count - 1) as nat) as int,
                ));
            } else if count > 0 {
                assert(is_file(
                    view.files@[count - 1],
                    had.last(),
                    hunks_before(had, (count - 1) as nat) as int,
                ));
            }
        }
        let end = match read_hunks(&lines, j, file, &mut view.hunks) {
            Ok(e) => e,
            Err(at) => {
                assert(at < total) by {
                    lemma_fault_is_a_line(ls, j as int);
                }
                return Err(parse_error(at, "cannot read a hunk"));
            },
        };
        let ghost t = file_at(ls, i as int)->Ok_0.0;
        proof {
            if let Ok(rest) = files_from(ls, end as int) {
                assert(done + (seq![t] + rest) =~= done.push(t) + rest);
            }
            assert(done.push(t).drop_last() =~= done);
        }
        proof {
            if joins {
                let a = had.last();
                assert forall|k: int| 0 <= k < a.hunks.len() implies is_hunk(
                    view.hunks@[base - a.hunks.len() + k],
                    #[trigger] a.hunks[k],
                    file as int,
                ) by {
                    assert(had[count - 1].hunks[k] == a.hunks[k]);
                    assert(is_hunk(
                        before.hunks@[hunks_before(had, (count - 1) as nat) + k],
                        had[count - 1].hunks[k],
                        count - 1,
                    ));
                }
            }
        }
        let last = if joins {
            view.files.pop()
        } else {
            None
        };
        let made = match last {
            Some(first) => joined_file(
                first,
                &head,
                &view.hunks,
                base,
                Ghost(file as int),
                Ghost(had.last()),
                Ghost(t),
            ),
            None => new_file(path, &head, &view.hunks, base, Ghost(file as int), Ghost(t)),
        };
        view.files.push(made);
        proof {
            if joins {
                lemma_view_joins(before, view, had, t, made);
            } else {
                lemma_view_grows(before, view, had, t, made);
            }
            done = done.push(t);
        }
        i = end;
    }
    proof {
        if i < total {
            assert(ls[i as int] == lines@[i as int]@);
        }
        assert(done + Seq::<FileText>::empty() =~= done);
    }
    Ok(view)
}

/// A place that cannot be read is a line.
proof fn lemma_fault_is_a_line(ls: Seq<Seq<u8>>, i: int)
    requires
        0 <= i,
    ensures
        hunks_from(ls, i) matches Err(at) ==> i <= at < ls.len(),
    decreases ls.len() - i,
{
    if i < ls.len() && starts_hunk(ls[i]) {
        if let Ok((h, next)) = hunk_at(ls, i) {
            if next > i {
                lemma_fault_is_a_line(ls, next);
            }
        }
    }
}

proof fn lemma_hunks_before(files: Seq<FileText>, t: FileText, k: nat)
    requires
        k <= files.len(),
    ensures
        hunks_before(files.push(t), k) == hunks_before(files, k),
    decreases k,
{
    if k > 0 {
        lemma_hunks_before(files, t, (k - 1) as nat);
    }
}

proof fn lemma_hunks_before_grows(files: Seq<FileText>, f: nat, k: nat)
    requires
        f < k <= files.len(),
    ensures
        hunks_before(files, f) + files[f as int].hunks.len() <= hunks_before(files, k),
    decreases k,
{
    if f < k - 1 {
        lemma_hunks_before_grows(files, f, (k - 1) as nat);
    }
}

/// A view with one more file.
proof fn lemma_view_grows(
    before: DiffView,
    after: DiffView,
    files: Seq<FileText>,
    t: FileText,
    made: FileChange,
)
    requires
        is_view_of(before, files),
        before.wf(),
        after.files@ == before.files@.push(made),
        is_file(made, t, before.hunks@.len() as int),
        after.hunks@.len() == before.hunks@.len() + t.hunks.len(),
        forall|k: int|
            0 <= k < before.hunks@.len() ==> #[trigger] after.hunks@[k] == before.hunks@[k],
        forall|k: int|
            0 <= k < t.hunks.len() ==> is_hunk(
                after.hunks@[before.hunks@.len() + k],
                #[trigger] t.hunks[k],
                files.len() as int,
            ),
    ensures
        is_view_of(after, files.push(t)),
        after.wf(),
{
    let now = files.push(t);
    lemma_hunks_before(files, t, files.len());
    assert forall|f: int| 0 <= f < now.len() implies is_file(
        #[trigger] after.files@[f],
        now[f],
        hunks_before(now, f as nat) as int,
    ) by {
        lemma_hunks_before(files, t, f as nat);
        if f < files.len() {
            assert(after.files@[f] == before.files@[f]);
        }
    }
    assert forall|f: int, k: int|
        0 <= f < now.len() && 0 <= k < now[f].hunks.len() implies is_hunk(
        after.hunks@[hunks_before(now, f as nat) + k],
        #[trigger] now[f].hunks[k],
        f,
    ) by {
        lemma_hunks_before(files, t, f as nat);
        if f < files.len() {
            lemma_hunks_before_grows(files, f as nat, files.len());
            assert(now[f] == files[f]);
            assert(is_hunk(
                before.hunks@[hunks_before(files, f as nat) + k],
                files[f].hunks[k],
                f,
            ));
        } else {
            assert(is_hunk(
                after.hunks@[before.hunks@.len() + k],
                t.hunks[k],
                files.len() as int,
            ));
        }
    }
    assert forall|x: int| 0 <= x < after.hunks@.len() implies (#[trigger] after.hunks@[x]).file
        < after.files@.len() by {
        if x < before.hunks@.len() {
            assert(after.hunks@[x] == before.hunks@[x]);
        } else {
            let k = x - before.hunks@.len();
            assert(is_hunk(
                after.hunks@[before.hunks@.len() + k],
                t.hunks[k],
                files.len() as int,
            ));
        }
    }
}

/// A view whose last file has a further section.
proof fn lemma_view_joins(
    before: DiffView,
    after: DiffView,
    files: Seq<FileText>,
    t: FileText,
    made: FileChange,
)
    requires
        files.len() > 0,
        is_view_of(before, files),
        before.wf(),
        after.files@ == before.files@.drop_last().push(made),
        is_file(
            made,
            joined(files.last(), t),
            hunks_before(files, (files.len() - 1) as nat) as int,
        ),
        after.hunks@.len() == before.hunks@.len() + t.hunks.len(),
        forall|k: int|
            0 <= k < before.hunks@.len() ==> #[trigger] after.hunks@[k] == before.hunks@[k],
        forall|k: int|
            0 <= k < t.hunks.len() ==> is_hunk(
                after.hunks@[before.hunks@.len() + k],
                #[trigger] t.hunks[k],
                files.len() - 1,
            ),
    ensures
        is_view_of(after, files.drop_last().push(joined(files.last(), t))),
        after.wf(),
{
    let pre = files.drop_last();
    let j = joined(files.last(), t);
    let now = pre.push(j);
    assert(pre.push(files.last()) =~= files);
    assert forall|k: nat| k <= pre.len() implies #[trigger] hunks_before(now, k) == hunks_before(
        files,
        k,
    ) by {
        lemma_hunks_before(pre, j, k);
        lemma_hunks_before(pre, files.last(), k);
    }
    let start = hunks_before(files, pre.len());
    assert(hunks_before(now, pre.len()) == start);
    assert(now[pre.len() as int] == j);
    assert(hunks_before(now, (pre.len() + 1) as nat) == start + j.hunks.len());
    assert forall|f: int| 0 <= f < now.len() implies is_file(
        #[trigger] after.files@[f],
        now[f],
        hunks_before(now, f as nat) as int,
    ) by {
        if f < pre.len() {
            assert(after.files@[f] == before.files@[f]);
            assert(now[f] == files[f]);
        }
    }
    assert forall|f: int, k: int|
        0 <= f < now.len() && 0 <= k < now[f].hunks.len() implies is_hunk(
        after.hunks@[hunks_before(now, f as nat) + k],
        #[trigger] now[f].hunks[k],
        f,
    ) by {
        if f < pre.len() {
            lemma_hunks_before_grows(files, f as nat, files.len());
            assert(now[f] == files[f]);
            assert(is_hunk(
                before.hunks@[hunks_before(files, f as nat) + k],
                files[f].hunks[k],
                f,
            ));
        } else if k < files.last().hunks.len() {
            assert(now[f].hunks[k] == files[f].hunks[k]);
            assert(is_hunk(before.hunks@[start + k], files[f].hunks[k], f));
        } else {
            let x = k - files.last().hunks.len();
            assert(now[f].hunks[k] == t.hunks[x]);
            assert(is_hunk(after.hunks@[before.hunks@.len() + x], t.hunks[x], files.len() - 1));
        }
    }
    assert forall|x: int| 0 <= x < after.hunks@.len() implies (#[trigger] after.hunks@[x]).file
        < after.files@.len() by {
        if x < before.hunks@.len() {
            assert(after.hunks@[x] == before.hunks@[x]);
        } else {
            let k = x - before.hunks@.len();
            assert(is_hunk(after.hunks@[before.hunks@.len() + k], t.hunks[k], files.len() - 1));
        }
    }
}

/// Joining sections keeps the number of hunks.
proof fn lemma_merged_hunks(sections: Seq<FileText>)
    ensures
        hunks_before(merged(sections), merged(sections).len()) == hunks_before(
            sections,
            sections.len(),
        ),
    decreases sections.len(),
{
    if sections.len() > 0 {
        let rest = sections.drop_last();
        let t = sections.last();
        let before = merged(rest);
        lemma_merged_hunks(rest);
        assert(rest.push(t) =~= sections);
        lemma_hunks_before(rest, t, rest.len());
        if before.len() > 0 && before.last().path == t.path {
            let pre = before.drop_last();
            assert(pre.push(before.last()) =~= before);
            lemma_hunks_before(pre, before.last(), pre.len());
            lemma_hunks_before(pre, joined(before.last(), t), pre.len());
        } else {
            lemma_hunks_before(before, t, before.len());
        }
    }
}

// ---------------------------------------------------------------------------
// The recount

/// How many of the lines between two places start a hunk.
pub open spec fn starts_between(ls: Seq<Seq<u8>>, i: int, j: int) -> nat
    decreases j - i,
{
    if j <= i {
        0
    } else {
        starts_between(ls, i, j - 1) + (if starts_hunk(ls[j - 1]) {
            1nat
        } else {
            0
        })
    }
}

proof fn lemma_between(ls: Seq<Seq<u8>>, i: int, j: int, k: int)
    requires
        i <= j <= k,
    ensures
        starts_between(ls, i, k) == starts_between(ls, i, j) + starts_between(ls, j, k),
    decreases k - j,
{
    if j < k {
        lemma_between(ls, i, j, k - 1);
    }
}

proof fn lemma_none_between(ls: Seq<Seq<u8>>, i: int, j: int)
    requires
        forall|x: int| i <= x < j ==> !starts_hunk(#[trigger] ls[x]),
    ensures
        starts_between(ls, i, j) == 0,
    decreases j - i,
{
    if i < j {
        lemma_none_between(ls, i, j - 1);
    }
}

proof fn lemma_hunk_starts_once(ls: Seq<Seq<u8>>, i: int)
    requires
        0 <= i < ls.len(),
        starts_hunk(ls[i]),
        hunk_at(ls, i) is Ok,
    ensures
        i < hunk_at(ls, i)->Ok_0.1 <= ls.len(),
        starts_between(ls, i, hunk_at(ls, i)->Ok_0.1) == 1,
{
    let (a, b, c, d) = header_ranges(ls[i])->0;
    let next = hunk_at(ls, i)->Ok_0.1;
    lemma_between(ls, i, i + 1, next);
    assert(starts_between(ls, i, i) == 0);
    assert(starts_between(ls, i, i + 1) == 1);
    assert forall|x: int| i + 1 <= x < next implies !starts_hunk(#[trigger] ls[x]) by {
        let p = i + 1 + b;
        if x >= p {
            let nonl_old = b > 0 && no_newline_at(ls, p);
            let q = if nonl_old {
                p + 1
            } else {
                p
            };
            if x == p && nonl_old {
                assert(ls[p][0] == 92);
            } else if x < q + d {
                assert(all_marked(ls, q, 43, d as int));
            } else {
                assert(x == q + d);
                assert(no_newline_at(ls, q + d));
            }
        }
    }
    lemma_none_between(ls, i + 1, next);
}

proof fn lemma_hunks_start_once_each(ls: Seq<Seq<u8>>, i: int)
    requires
        0 <= i <= ls.len(),
        hunks_from(ls, i) is Ok,
    ensures
        i <= hunks_from(ls, i)->Ok_0.1 <= ls.len(),
        starts_between(ls, i, hunks_from(ls, i)->Ok_0.1) == hunks_from(ls, i)->Ok_0.0.len(),
    decreases ls.len() - i,
{
    if i < ls.len() && starts_hunk(ls[i]) {
        lemma_hunk_starts_once(ls, i);
        let next = hunk_at(ls, i)->Ok_0.1;
        lemma_hunks_start_once_each(ls, next);
        lemma_between(ls, i, next, hunks_from(ls, i)->Ok_0.1);
    }
}

proof fn lemma_head_starts_none(ls: Seq<Seq<u8>>, i: int, m: Meta)
    requires
        0 <= i <= ls.len(),
    ensures
        i <= head_from(ls, i, m).1 <= ls.len(),
        starts_between(ls, i, head_from(ls, i, m).1) == 0,
    decreases ls.len() - i,
{
    if !head_ends(ls, i) {
        lemma_head_starts_none(ls, i + 1, noted(m, ls[i]));
        lemma_between(ls, i, i + 1, head_from(ls, i, m).1);
        assert(starts_between(ls, i, i) == 0);
    }
}

/// A file's header line starts no hunk.
proof fn lemma_file_line(l: Seq<u8>)
    requires
        starts(l, diff_mark()),
    ensures
        !starts_hunk(l),
{
    reveal_strlit("diff --git ");
    let text = "diff --git "@;
    vstd::utf8::char_u32_cast('d', 100u32);
    vstd::utf8::encode_utf8_first_scalar(text);
    assert(text[0] == 'd');
    assert(vstd::utf8::encode_scalar(100u32) == seq![100u8]) by {
        assert(vstd::utf8::has_width_1_encoding(100u32));
        assert(vstd::utf8::leading_byte_width_1(100u32) == 100u8) by (bit_vector);
    }
    assert(encode_utf8(text)[0] == 100u8);
    assert(l[0] == l.take(diff_mark().len() as int)[0]);
}

proof fn lemma_files_start_once_each(ls: Seq<Seq<u8>>, i: int)
    requires
        0 <= i <= ls.len(),
        files_from(ls, i) is Ok,
    ensures
        starts_between(ls, i, ls.len() as int) == hunks_before(
            files_from(ls, i)->Ok_0,
            files_from(ls, i)->Ok_0.len(),
        ),
    decreases ls.len() - i,
{
    let files = files_from(ls, i)->Ok_0;
    if at_end(ls, i) {
        lemma_none_between(ls, i, ls.len() as int);
    } else {
        let (f, next) = file_at(ls, i)->Ok_0;
        let rest = files_from(ls, next)->Ok_0;
        let j = head_from(ls, i + 1, no_meta()).1;
        lemma_file_line(ls[i]);
        lemma_head_starts_none(ls, i + 1, no_meta());
        lemma_hunks_start_once_each(ls, j);
        lemma_files_start_once_each(ls, next);
        assert(starts_between(ls, i, i) == 0);
        lemma_between(ls, i, i + 1, j);
        lemma_between(ls, i, j, next);
        lemma_between(ls, i, next, ls.len() as int);
        lemma_first_file(f, rest, rest.len());
    }
}

proof fn lemma_first_file(f: FileText, rest: Seq<FileText>, k: nat)
    requires
        k <= rest.len(),
    ensures
        hunks_before(seq![f] + rest, k + 1) == f.hunks.len() + hunks_before(rest, k),
    decreases k,
{
    let all = seq![f] + rest;
    if k == 0 {
        assert(hunks_before(all, 0) == 0);
        assert(all[0] == f);
    } else {
        lemma_first_file(f, rest, (k - 1) as nat);
        assert(all[k as int] == rest[k - 1]);
    }
}

proof fn lemma_header_count(ls: Seq<Seq<u8>>, k: int)
    requires
        0 <= k <= ls.len(),
    ensures
        header_count(ls.take(k)) == starts_between(ls, 0, k),
    decreases k,
{
    if k > 0 {
        lemma_header_count(ls, k - 1);
        assert(ls.take(k).drop_last() =~= ls.take(k - 1));
        let l = ls[k - 1];
        let mark = seq![64u8, 64u8, 32u8, 45u8];
        if is_header(l) {
            assert(l.subrange(0, 4)[0] == mark[0]);
            assert(l.subrange(0, 4)[1] == mark[1]);
            assert(l.subrange(0, 4)[2] == mark[2]);
            assert(l.subrange(0, 4)[3] == mark[3]);
        }
        if starts_hunk(l) {
            assert(l.subrange(0, 4) =~= mark);
        }
    }
}

/// A patch that can be read has as many hunks as it has lines that start one: a
/// counter of those lines that knows nothing of files and hunks finds every hunk,
/// and nothing else.
pub proof fn law_every_hunk_line_is_a_hunk(patch: Seq<u8>)
    requires
        patch_files(patch) is Ok,
    ensures
        header_count(split(patch, 10u8)) == hunks_before(
            patch_files(patch)->Ok_0,
            patch_files(patch)->Ok_0.len(),
        ),
{
    let ls = split(patch, 10u8);
    lemma_merged_hunks(files_from(ls, 0)->Ok_0);
    lemma_files_start_once_each(ls, 0);
    lemma_header_count(ls, ls.len() as int);
    assert(ls.take(ls.len() as int) =~= ls);
}

/// The file that a hunk of a patch lies in.
pub(crate) proof fn lemma_file_of_hunk(files: Seq<FileText>, k: nat, h: int) -> (f: int)
    requires
        k <= files.len(),
        0 <= h < hunks_before(files, k),
    ensures
        0 <= f < k,
        hunks_before(files, f as nat) <= h < hunks_before(files, f as nat)
            + files[f].hunks.len(),
    decreases k,
{
    if h >= hunks_before(files, (k - 1) as nat) {
        k - 1
    } else {
        lemma_file_of_hunk(files, (k - 1) as nat, h)
    }
}

/// The view of a patch accounts for every hunk: each one belongs to exactly one file,
/// and the two agree.
pub proof fn law_a_parsed_view_is_accounted(v: &DiffView, files: Seq<FileText>)
    requires
        is_view_of(*v, files),
    ensures
        accounted(v),
{
    assert forall|f: int| 0 <= f < v.files@.len() implies owns_its_list(v, f) by {
        lemma_hunks_before_grows(files, f as nat, files.len());
        assert(is_file(v.files@[f], files[f], hunks_before(files, f as nat) as int));
        let list = v.files@[f].hunks@;
        assert forall|k: int| 0 <= k < list.len() implies (#[trigger] list[k]) < v.hunks@.len()
            && v.hunks@[list[k] as int].file == f by {
            assert(is_hunk(
                v.hunks@[hunks_before(files, f as nat) + k],
                files[f].hunks[k],
                f,
            ));
        }
    }
    assert forall|h: int| 0 <= h < v.hunks@.len() implies is_listed(v, h) by {
        let f = lemma_file_of_hunk(files, files.len(), h);
        assert(is_file(v.files@[f], files[f], hunks_before(files, f as nat) as int));
        let k = h - hunks_before(files, f as nat);
        assert(v.files@[f].hunks@[k] == h);
    }
}

// ---------------------------------------------------------------------------
// What a hunk is read from

/// The digits of a number, as they are printed.
pub open spec fn printed(n: nat) -> Seq<u8>
    decreases n,
{
    if n < 10 {
        seq![(48 + n) as u8]
    } else {
        printed(n / 10).push((48 + n % 10) as u8)
    }
}

/// A range of lines as it is printed; of a single line the count may be left out.
pub open spec fn printed_range(start: u32, count: u32, short: bool) -> Seq<u8> {
    if short && count == 1 {
        printed(start as nat)
    } else {
        printed(start as nat) + seq![44u8] + printed(count as nat)
    }
}

/// The header of a hunk as it is printed, with the line that it stands in behind it.
pub open spec fn printed_header(h: Hunk, short: (bool, bool), tail: Seq<u8>) -> Seq<u8> {
    seq![64u8, 64u8, 32u8, 45u8] + printed_range(h.old_start, h.old_count, short.0) + seq![
        32u8,
        43u8,
    ] + printed_range(h.new_start, h.new_count, short.1) + seq![32u8, 64u8, 64u8] + tail
}

/// Whether a line says that the side above it ends without a newline.
pub open spec fn is_note(ls: Seq<Seq<u8>>, i: int) -> bool {
    0 <= i < ls.len() && ls[i].len() > 0 && ls[i][0] == 92
}

/// Whether a hunk is what stands from a line on: a header, the removed lines behind a
/// `-`, the added ones behind a `+`, and behind each side that has lines a note where it
/// ends without a newline.
pub open spec fn stands_at(ls: Seq<Seq<u8>>, i: int, h: Hunk) -> bool {
    let p = i + 1 + h.old_count;
    let q = if h.nonl_old {
        p + 1
    } else {
        p
    };
    &&& 0 <= i < ls.len()
    &&& ls[i].len() >= 4 && ls[i].take(4) == seq![64u8, 64u8, 32u8, 45u8]
    &&& h.removed@.len() == h.old_count
    &&& h.added@.len() == h.new_count
    &&& forall|k: int|
        0 <= k < h.old_count ==> ls[i + 1 + k] == seq![45u8] + (#[trigger] h.removed@[k])@
    &&& forall|k: int| 0 <= k < h.new_count ==> ls[q + k] == seq![43u8] + (#[trigger] h.added@[k])@
    &&& h.nonl_old <==> h.old_count > 0 && is_note(ls, p)
    &&& h.nonl_new <==> h.new_count > 0 && is_note(ls, q + h.new_count)
}

/// Whether the text of a hunk was read at a line.
spec fn read_at(ls: Seq<Seq<u8>>, i: int, t: HunkText) -> bool {
    &&& 0 <= i < ls.len()
    &&& starts_hunk(ls[i])
    &&& hunk_at(ls, i) matches Ok((u, _)) && u == t
}

/// Whether the text of a hunk was read somewhere.
spec fn was_read(ls: Seq<Seq<u8>>, t: HunkText) -> bool {
    exists|i: int| read_at(ls, i, t)
}

/// Whether all the hunks of some files were read somewhere.
spec fn all_read_in(ls: Seq<Seq<u8>>, files: Seq<FileText>) -> bool {
    forall|f: int, k: int|
        0 <= f < files.len() && 0 <= k < files[f].hunks.len() ==> was_read(
            ls,
            #[trigger] files[f].hunks[k],
        )
}

proof fn lemma_hunks_are_read(ls: Seq<Seq<u8>>, i: int)
    requires
        0 <= i,
    ensures
        hunks_from(ls, i) matches Ok((hs, _)) ==> forall|k: int|
            0 <= k < hs.len() ==> was_read(
            ls,
            #[trigger] hs[k],
        ),
    decreases ls.len() - i,
{
    if i < ls.len() && starts_hunk(ls[i]) {
        if let Ok((h, next)) = hunk_at(ls, i) {
            if next > i {
                lemma_hunks_are_read(ls, next);
                if let Ok((rest, _)) = hunks_from(ls, next) {
                    let all = seq![h] + rest;
                    assert forall|k: int| 0 <= k < all.len() implies was_read(
            ls,
            #[trigger] all[k],
        ) by {
                        if k == 0 {
                            assert(read_at(ls, i, all[0]));
                        } else {
                            assert(all[k] == rest[k - 1]);
                        }
                    }
                }
            }
        }
    }
}

proof fn lemma_head_goes_on(ls: Seq<Seq<u8>>, i: int, m: Meta)
    ensures
        head_from(ls, i, m).1 >= i,
    decreases ls.len() - i,
{
    if !head_ends(ls, i) {
        lemma_head_goes_on(ls, i + 1, noted(m, ls[i]));
    }
}

proof fn lemma_sections_are_read(ls: Seq<Seq<u8>>, i: int)
    requires
        0 <= i,
    ensures
        files_from(ls, i) matches Ok(files) ==> all_read_in(ls, files),
    decreases ls.len() - i,
{
    if !at_end(ls, i) && starts(ls[i], diff_mark()) {
        if let Ok((t, next)) = file_at(ls, i) {
            lemma_head_goes_on(ls, i + 1, no_meta());
            lemma_hunks_are_read(ls, head_from(ls, i + 1, no_meta()).1);
            if i < next <= ls.len() {
                lemma_sections_are_read(ls, next);
                if let Ok(rest) = files_from(ls, next) {
                    let all = seq![t] + rest;
                    assert forall|f: int, k: int|
                        0 <= f < all.len() && 0 <= k < all[f].hunks.len() implies was_read(
            ls,
            #[trigger] all[f].hunks[k],
        ) by {
                        if f > 0 {
                            assert(all[f] == rest[f - 1]);
                            assert(all[f].hunks[k] == rest[f - 1].hunks[k]);
                        }
                    }
                }
            }
        }
    }
}

proof fn lemma_merged_are_read(ls: Seq<Seq<u8>>, sections: Seq<FileText>)
    requires
        all_read_in(ls, sections),
    ensures
        all_read_in(ls, merged(sections)),
    decreases sections.len(),
{
    if sections.len() > 0 {
        let fewer = sections.drop_last();
        assert forall|f: int, k: int|
            0 <= f < fewer.len() && 0 <= k < fewer[f].hunks.len() implies was_read(
            ls,
            #[trigger] fewer[f].hunks[k],
        ) by {
            assert(fewer[f].hunks[k] == sections[f].hunks[k]);
        }
        lemma_merged_are_read(ls, fewer);
        let before = merged(fewer);
        let t = sections.last();
        let all = merged(sections);
        assert forall|f: int, k: int|
            0 <= f < all.len() && 0 <= k < all[f].hunks.len() implies was_read(
            ls,
            #[trigger] all[f].hunks[k],
        ) by {
            let last = sections.len() - 1;
            if f < before.len() && k < before[f].hunks.len() {
                assert(all[f].hunks[k] == before[f].hunks[k]);
            } else if f < before.len() {
                let m = k - before[f].hunks.len();
                assert(all[f].hunks[k] == sections[last].hunks[m]);
            } else {
                assert(all[f].hunks[k] == sections[last].hunks[k]);
            }
        }
    }
}

/// Printed digits are digits, and they spell their number.
proof fn lemma_printed(s: Seq<u8>, i: int, n: nat)
    requires
        0 <= i,
        i + printed(n).len() <= s.len(),
        s.subrange(i, i + printed(n).len()) == printed(n),
    ensures
        printed(n).len() > 0,
        forall|k: int| i <= k < i + printed(n).len() ==> 48 <= #[trigger] s[k] <= 57,
        digits_value(s, i, i + printed(n).len()) == n,
    decreases n,
{
    let d = printed(n);
    let part = s.subrange(i, i + d.len());
    if n < 10 {
        assert(part[0] == s[i]);
        reveal_with_fuel(digits_value, 2);
    } else {
        let fewer = printed(n / 10);
        assert(s.subrange(i, i + fewer.len()) =~= fewer) by {
            assert forall|k: int| 0 <= k < fewer.len() implies s[i + k] == fewer[k] by {
                assert(part[k] == d[k]);
            }
        }
        lemma_printed(s, i, n / 10);
        assert(part[d.len() - 1] == s[i + d.len() - 1]);
        assert(d.last() == (48 + n % 10) as u8);
    }
}

/// Where a run of digits ends is known from the first byte that is none.
proof fn lemma_run_ends(s: Seq<u8>, i: int, end: int)
    requires
        0 <= i <= end <= s.len(),
        forall|k: int| i <= k < end ==> 48 <= #[trigger] s[k] <= 57,
        end < s.len() ==> !(48 <= s[end] <= 57),
    ensures
        digits_end(s, i) == end,
    decreases end - i,
{
    if i < end {
        lemma_run_ends(s, i + 1, end);
    }
}

/// A printed range is read as the range it was.
proof fn lemma_printed_range(s: Seq<u8>, i: int, start: u32, count: u32, short: bool)
    requires
        0 <= i,
        i + printed_range(start, count, short).len() < s.len(),
        s.subrange(i, i + printed_range(start, count, short).len()) == printed_range(
            start,
            count,
            short,
        ),
        s[i + printed_range(start, count, short).len()] == 32,
    ensures
        range_at(s, i) == Some((start, count, i + printed_range(start, count, short).len() as int)),
{
    let all = printed_range(start, count, short);
    let part = s.subrange(i, i + all.len());
    let a = printed(start as nat);
    assert(s.subrange(i, i + a.len()) =~= a) by {
        assert forall|k: int| 0 <= k < a.len() implies s[i + k] == a[k] by {
            assert(part[k] == all[k]);
        }
    }
    lemma_printed(s, i, start as nat);
    let e = i + a.len();
    if !(short && count == 1) {
        assert(part[a.len() as int] == all[a.len() as int]);
        assert(s[e] == 44);
        let b = printed(count as nat);
        assert(s.subrange(e + 1, e + 1 + b.len()) =~= b) by {
            assert forall|k: int| 0 <= k < b.len() implies s[e + 1 + k] == b[k] by {
                assert(part[a.len() + 1 + k] == all[a.len() + 1 + k]);
            }
        }
        lemma_printed(s, e + 1, count as nat);
        lemma_run_ends(s, e + 1, e + 1 + b.len());
    }
    lemma_run_ends(s, i, e);
}

/// A printed header is read as the ranges it was printed from.
proof fn lemma_printed_header(l: Seq<u8>, h: Hunk, short: (bool, bool), tail: Seq<u8>)
    requires
        l == printed_header(h, short, tail),
    ensures
        header_ranges(l) == Some((h.old_start, h.old_count, h.new_start, h.new_count)),
{
    let a = printed_range(h.old_start, h.old_count, short.0);
    let b = printed_range(h.new_start, h.new_count, short.1);
    let e: int = 4int + a.len();
    let f: int = e + 2 + b.len();
    assert(l.subrange(4, e) =~= a);
    assert(l[e] == 32 && l[e + 1] == 43);
    lemma_printed_range(l, 4, h.old_start, h.old_count, short.0);
    assert(l.subrange(e + 2, f) =~= b);
    assert(l[f] == 32 && l[f + 1] == 64 && l[f + 2] == 64);
    lemma_printed_range(l, e + 2, h.new_start, h.new_count, short.1);
}

/// What was read at a line stands there.
proof fn lemma_stands(ls: Seq<Seq<u8>>, i: int, t: HunkText, h: Hunk, f: int)
    requires
        read_at(ls, i, t),
        is_hunk(h, t, f),
    ensures
        stands_at(ls, i, h),
        header_ranges(ls[i]) == Some((h.old_start, h.old_count, h.new_start, h.new_count)),
{
    assert(ls[i].take(4) =~= seq![64u8, 64u8, 32u8, 45u8]);
    let q = if t.nonl_old {
        i + 1 + t.old_count + 1
    } else {
        i + 1 + t.old_count
    };
    assert(views(h.removed@).len() == h.removed@.len());
    assert(views(h.added@).len() == h.added@.len());
    assert(all_marked(ls, i + 1, 45, t.old_count as int));
    assert(all_marked(ls, q, 43, t.new_count as int));
    assert forall|m: int| 0 <= m < h.old_count implies ls[i + 1 + m] == seq![45u8] + (
    #[trigger] h.removed@[m])@ by {
        let l = ls[i + 1 + m];
        assert(views(h.removed@)[m] == h.removed@[m]@);
        assert(t.removed[m] == l.skip(1));
        assert(l =~= seq![45u8] + l.skip(1));
    }
    assert forall|m: int| 0 <= m < h.new_count implies ls[q + m] == seq![43u8] + (
    #[trigger] h.added@[m])@ by {
        let l = ls[q + m];
        assert(views(h.added@)[m] == h.added@[m]@);
        assert(t.added[m] == l.skip(1));
        assert(l =~= seq![43u8] + l.skip(1));
    }
}

/// Every hunk that is read stands in the patch: its header, its removed and its added
/// lines, and its notes on a missing newline. Where the header was printed from ranges,
/// these are the hunk's.
pub proof fn law_a_hunk_is_what_its_lines_say(patch: &[u8], v: DiffView, n: int)
    requires
        call_ensures(parse_canonical, (patch,), Ok(v)),
        0 <= n < v.hunks@.len(),
    ensures
        exists|i: int|
            {
                &&& #[trigger] stands_at(split(patch@, 10u8), i, v.hunks@[n])
                &&& forall|was: Hunk, short: (bool, bool), tail: Seq<u8>|
                    split(patch@, 10u8)[i] == #[trigger] printed_header(was, short, tail) ==> {
                        &&& v.hunks@[n].old_start == was.old_start
                        &&& v.hunks@[n].old_count == was.old_count
                        &&& v.hunks@[n].new_start == was.new_start
                        &&& v.hunks@[n].new_count == was.new_count
                    }
            },
{
    let ls = split(patch@, 10u8);
    let sections = files_from(ls, 0)->Ok_0;
    let files = merged(sections);
    let h = v.hunks@[n];
    lemma_sections_are_read(ls, 0);
    lemma_merged_are_read(ls, sections);
    let f = lemma_file_of_hunk(files, files.len(), n);
    let k = n - hunks_before(files, f as nat);
    let t = files[f].hunks[k];
    assert(is_hunk(v.hunks@[hunks_before(files, f as nat) + k], t, f));
    assert(was_read(ls, t));
    let i = choose|i: int| read_at(ls, i, t);
    lemma_stands(ls, i, t, h, f);
    assert forall|was: Hunk, short: (bool, bool), tail: Seq<u8>|
        ls[i] == #[trigger] printed_header(was, short, tail) implies h.old_start == was.old_start
        && h.old_count == was.old_count && h.new_start == was.new_start && h.new_count
        == was.new_count by {
        lemma_printed_header(ls[i], was, short, tail);
    }
}

} // verus!
