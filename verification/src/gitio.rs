//! Git's own formats: what is asked of plumbing commands, and how their bytes are
//! read. Text is decoded only where it is shown.
use vstd::prelude::*;
use vstd::string::*;
use vstd::utf8::encode_utf8;

use crate::plan::identity::{join_path, under};
use crate::rename_view::{lemma_join_without, ZERO_OID};
use crate::seqs::{
    copy_bytes, join, law_split_undoes_join, lemma_push_contains, split, split_bytes, texts, views,
};
use crate::subprocess::{excerpt, start_of};
use crate::text::{chars_of, lossy, lossy_text, push_str, str_eq};
use crate::tree::{entry_bytes, index_entry};
use crate::EngineError;

verus! {

/// One commit as a list shows it.
#[derive(Debug, Clone, PartialEq, Eq)]
pub struct CommitSummary {
    pub sha: String,
    pub short: String,
    pub subject: String,
    pub author: String,
}

/// What a commit's record says.
pub struct CommitText {
    pub sha: Seq<char>,
    pub short: Seq<char>,
    pub subject: Seq<char>,
    pub author: Seq<char>,
}

pub open spec fn commit_text(c: CommitSummary) -> CommitText {
    CommitText { sha: c.sha@, short: c.short@, subject: c.subject@, author: c.author@ }
}

pub open spec fn commit_texts(v: Seq<CommitSummary>) -> Seq<CommitText> {
    v.map_values(|c: CommitSummary| commit_text(c))
}

/// The fields of a record, decoded.
pub open spec fn fields(line: Seq<u8>) -> Seq<Seq<char>> {
    split(line, 0u8).map_values(|f: Seq<u8>| lossy_text(f))
}

/// The commit that a line describes: exactly four fields.
pub open spec fn commit_of(line: Seq<u8>) -> Option<CommitText> {
    let f = fields(line);
    if line.len() > 0 && f.len() == 4 {
        Some(CommitText { sha: f[0], short: f[1], subject: f[2], author: f[3] })
    } else {
        None
    }
}

/// The commits that the first `k` lines describe.
pub open spec fn commits_of(lines: Seq<Seq<u8>>, k: nat) -> Seq<CommitText>
    decreases k,
{
    if k == 0 {
        Seq::empty()
    } else {
        match commit_of(lines[k - 1]) {
            Some(c) => commits_of(lines, (k - 1) as nat).push(c),
            None => commits_of(lines, (k - 1) as nat),
        }
    }
}

fn decode_fields(line: &[u8]) -> (r: Vec<String>)
    ensures
        texts(r@) == fields(line@),
{
    let parts = split_bytes(line, 0u8);
    let mut out: Vec<String> = Vec::new();
    for i in 0..parts.len()
        invariant
            views(parts@) == split(line@, 0u8),
            out@.len() == i,
            forall|k: int| 0 <= k < i ==> (#[trigger] out@[k])@ == fields(line@)[k],
    {
        assert(views(parts@)[i as int] == parts@[i as int]@);
        out.push(lossy(parts[i].as_slice()));
    }
    assert(texts(out@) =~= fields(line@));
    out
}

/// `rev-list --no-commit-header --format=%H%x00%h%x00%s%x00%an` output: one record
/// per line, the fields separated by a zero. A line of another shape is passed
/// over.
pub fn parse_rev_list(bytes: &[u8]) -> (r: Vec<CommitSummary>)
    ensures
        commit_texts(r@) == commits_of(split(bytes@, 10u8), split(bytes@, 10u8).len()),
{
    let rows = split_bytes(bytes, 10u8);
    let ghost all = split(bytes@, 10u8);
    let mut out: Vec<CommitSummary> = Vec::new();
    assert(commit_texts(out@) =~= commits_of(all, 0));
    for i in 0..rows.len()
        invariant
            all == views(rows@),
            commit_texts(out@) == commits_of(all, i as nat),
    {
        let line = &rows[i];
        assert(all[i as int] == line@);
        if line.len() > 0 {
            let f = decode_fields(line.as_slice());
            let ghost fs = texts(f@);
            assert(fs.len() == f@.len());
            if f.len() == 4 {
                let ghost had = commit_texts(out@);
                let c = CommitSummary {
                    sha: f[0].clone(),
                    short: f[1].clone(),
                    subject: f[2].clone(),
                    author: f[3].clone(),
                };
                assert(fs[0] == f@[0]@ && fs[1] == f@[1]@ && fs[2] == f@[2]@ && fs[3] == f@[3]@);
                out.push(c);
                assert(commit_texts(out@) =~= had.push(commit_text(c)));
            }
        }
    }
    out
}

/// Ref names by the commit they point at.
#[derive(Debug, Clone)]
pub struct RefNames {
    pub entries: Vec<(String, Vec<String>)>,
}

/// The place of the entry of a commit, from place `from` on.
pub open spec fn entry_place(
    entries: Seq<(String, Vec<String>)>,
    sha: Seq<char>,
    from: int,
) -> Option<int>
    decreases entries.len() - from,
{
    if from >= entries.len() {
        None
    } else if entries[from].0@ == sha {
        Some(from)
    } else {
        entry_place(entries, sha, from + 1)
    }
}

impl RefNames {
    /// The names that point at a commit.
    pub open spec fn names(&self, sha: Seq<char>) -> Seq<Seq<char>> {
        match entry_place(self.entries@, sha, 0) {
            Some(i) => texts(self.entries@[i].1@),
            None => Seq::empty(),
        }
    }

    /// Whether every entry names something.
    pub open spec fn wf(&self) -> bool {
        forall|i: int| 0 <= i < self.entries@.len() ==> (#[trigger] self.entries@[i]).1@.len() > 0
    }

    fn place(&self, sha: &str) -> (r: Option<usize>)
        ensures
            match r {
                Some(i) => i < self.entries@.len() && entry_place(self.entries@, sha@, 0) == Some(
                    i as int,
                ) && self.entries@[i as int].0@ == sha@,
                None => entry_place(self.entries@, sha@, 0) is None,
            },
    {
        for i in 0..self.entries.len()
            invariant
                entry_place(self.entries@, sha@, 0) == entry_place(
                    self.entries@,
                    sha@,
                    i as int,
                ),
        {
            if str_eq(&self.entries[i].0, sha) {
                return Some(i);
            }
        }
        None
    }

    /// The names that point at a commit; `None` where there are none.
    pub fn get(&self, sha: &str) -> (r: Option<&Vec<String>>)
        requires
            self.wf(),
        ensures
            match r {
                Some(v) => v@.len() > 0 && texts(v@) == self.names(sha@),
                None => self.names(sha@).len() == 0,
            },
    {
        match self.place(sha) {
            Some(i) => Some(&self.entries[i].1),
            None => None,
        }
    }

    pub fn contains_key(&self, sha: &str) -> (r: bool)
        requires
            self.wf(),
        ensures
            r == (self.names(sha@).len() > 0),
    {
        match self.place(sha) {
            Some(i) => {
                assert(self.entries@[i as int].1@.len() > 0);
                assert(texts(self.entries@[i as int].1@).len() > 0);
                true
            },
            None => false,
        }
    }

    pub fn is_empty(&self) -> (r: bool)
        requires
            self.wf(),
        ensures
            r ==> forall|sha: Seq<char>| #[trigger] self.names(sha).len() == 0,
            !r ==> exists|sha: Seq<char>| #[trigger] self.names(sha).len() > 0,
    {
        if self.entries.len() == 0 {
            true
        } else {
            proof {
                let sha = self.entries@[0].0@;
                assert(entry_place(self.entries@, sha, 0) == Some(0int));
                assert(texts(self.entries@[0].1@).len() == self.entries@[0].1@.len());
                assert(self.names(sha).len() > 0);
            }
            false
        }
    }
}

/// The commit that a line's ref points at, and the ref's name. An annotated tag's
/// own id is the tag; the commit it points at is the peeled one.
pub open spec fn ref_of(line: Seq<u8>) -> Option<(Seq<char>, Seq<char>)> {
    let f = fields(line);
    if line.len() > 0 && f.len() == 3 && f[2].len() > 0 {
        Some(
            (
                if f[1].len() == 0 {
                    f[0]
                } else {
                    f[1]
                },
                f[2],
            ),
        )
    } else {
        None
    }
}

/// The names that the first `k` lines give a commit, in order.
pub open spec fn names_of(lines: Seq<Seq<u8>>, sha: Seq<char>, k: nat) -> Seq<Seq<char>>
    decreases k,
{
    if k == 0 {
        Seq::empty()
    } else {
        match ref_of(lines[k - 1]) {
            Some((target, name)) => if target == sha {
                names_of(lines, sha, (k - 1) as nat).push(name)
            } else {
                names_of(lines, sha, (k - 1) as nat)
            },
            None => names_of(lines, sha, (k - 1) as nat),
        }
    }
}

/// Whether an entry is found where it is the first of its commit.
proof fn lemma_entry_place(
    entries: Seq<(String, Vec<String>)>,
    sha: Seq<char>,
    from: int,
)
    requires
        0 <= from,
    ensures
        match entry_place(entries, sha, from) {
            Some(i) => from <= i < entries.len() && entries[i].0@ == sha && forall|k: int|
                from <= k < i ==> (#[trigger] entries[k]).0@ != sha,
            None => forall|k: int| from <= k < entries.len() ==> (#[trigger] entries[k]).0@ != sha,
        },
    decreases entries.len() - from,
{
    if from < entries.len() {
        lemma_entry_place(entries, sha, from + 1);
    }
}

/// The place of an entry, from what holds of it.
proof fn lemma_entry_is(entries: Seq<(String, Vec<String>)>, sha: Seq<char>, i: int)
    requires
        0 <= i < entries.len(),
        entries[i].0@ == sha,
        forall|k: int| 0 <= k < i ==> (#[trigger] entries[k]).0@ != sha,
    ensures
        entry_place(entries, sha, 0) == Some(i),
{
    lemma_entry_place(entries, sha, 0);
}

/// Add one name to a commit.
fn add_name(refs: &mut RefNames, sha: String, name: String)
    requires
        old(refs).wf(),
    ensures
        final(refs).wf(),
        forall|s: Seq<char>| #[trigger]
            final(refs).names(s) == (if s == sha@ {
                old(refs).names(s).push(name@)
            } else {
                old(refs).names(s)
            }),
{
    let ghost was = refs.entries@;
    match refs.place(&sha) {
        Some(i) => {
            let ghost had = was[i as int].1@;
            refs.entries[i].1.push(name);
            proof {
                let now = refs.entries@;
                assert(now.len() == was.len());
                assert(forall|k: int| 0 <= k < now.len() && k != i ==> now[k] == was[k]);
                assert(texts(now[i as int].1@) =~= texts(had).push(name@));
                assert forall|s: Seq<char>| #[trigger]
                    refs.names(s) == (if s == sha@ {
                        old(refs).names(s).push(name@)
                    } else {
                        old(refs).names(s)
                    }) by {
                    lemma_entry_place(was, s, 0);
                    lemma_entry_place(now, s, 0);
                    lemma_same_place(was, now, s);
                }
            }
        },
        None => {
            let mut list: Vec<String> = Vec::new();
            list.push(name);
            let ghost key = sha@;
            refs.entries.push((sha, list));
            proof {
                let now = refs.entries@;
                assert(forall|k: int| 0 <= k < was.len() ==> now[k] == was[k]);
                assert(texts(list@) =~= Seq::<Seq<char>>::empty().push(name@));
                assert forall|s: Seq<char>| #[trigger]
                    refs.names(s) == (if s == key {
                        old(refs).names(s).push(name@)
                    } else {
                        old(refs).names(s)
                    }) by {
                    lemma_entry_place(was, s, 0);
                    lemma_entry_place(now, s, 0);
                    if s == key {
                        assert forall|k: int| 0 <= k < was.len() implies (
                        #[trigger] now[k]).0@ != s by {
                            assert(now[k] == was[k]);
                            assert(was[k].0@ != s);
                        }
                        lemma_entry_is(now, s, was.len() as int);
                    } else {
                        match entry_place(was, s, 0) {
                            Some(i) => {
                                assert(now[i].0@ == s);
                                assert forall|k: int| 0 <= k < i implies (
                                #[trigger] now[k]).0@ != s by {
                                    assert(was[k].0@ != s);
                                }
                                lemma_entry_is(now, s, i);
                            },
                            None => {
                                if let Some(i) = entry_place(now, s, 0) {
                                    assert(i < was.len());
                                    assert(was[i].0@ != s);
                                }
                            },
                        }
                    }
                }
            }
        },
    }
}

/// Entries of the same commits in the same order are found at the same place.
proof fn lemma_same_place(
    a: Seq<(String, Vec<String>)>,
    b: Seq<(String, Vec<String>)>,
    s: Seq<char>,
)
    requires
        a.len() == b.len(),
        forall|k: int| 0 <= k < a.len() ==> (#[trigger] a[k]).0@ == b[k].0@,
    ensures
        entry_place(a, s, 0) == entry_place(b, s, 0),
{
    lemma_entry_place(a, s, 0);
    lemma_entry_place(b, s, 0);
    match entry_place(a, s, 0) {
        Some(i) => {
            assert forall|k: int| 0 <= k < i implies (#[trigger] b[k]).0@ != s by {
                assert(a[k].0@ != s);
            }
            lemma_entry_is(b, s, i);
        },
        None => {
            if let Some(i) = entry_place(b, s, 0) {
                assert(a[i].0@ != s);
            }
        },
    }
}

/// `for-each-ref --format='%(objectname)%00%(*objectname)%00%(refname:short)'`
/// output: the names of each commit, in the order of the output. A line of another
/// shape, or without a name, is passed over.
pub fn parse_refs(bytes: &[u8]) -> (r: RefNames)
    ensures
        r.wf(),
        forall|sha: Seq<char>| #[trigger]
            r.names(sha) == names_of(split(bytes@, 10u8), sha, split(bytes@, 10u8).len()),
{
    let rows = split_bytes(bytes, 10u8);
    let ghost all = split(bytes@, 10u8);
    let mut out = RefNames { entries: Vec::new() };
    proof {
        reveal_strlit("");
    }
    for i in 0..rows.len()
        invariant
            ""@.len() == 0,
            all == views(rows@),
            out.wf(),
            forall|sha: Seq<char>| #[trigger] out.names(sha) == names_of(all, sha, i as nat),
    {
        let line = &rows[i];
        assert(all[i as int] == line@);
        if line.len() > 0 {
            let mut f = decode_fields(line.as_slice());
            let ghost fs = texts(f@);
            assert(fs.len() == f@.len());
            if f.len() == 3 {
                assert(fs[0] == f@[0]@ && fs[1] == f@[1]@ && fs[2] == f@[2]@);
                assert(fs[1].len() == 0 ==> fs[1] =~= ""@);
                assert(fs[2].len() == 0 ==> fs[2] =~= ""@);
                if !str_eq(&f[2], "") {
                    let target = if str_eq(&f[1], "") {
                        f[0].clone()
                    } else {
                        f[1].clone()
                    };
                    add_name(&mut out, target, f[2].clone());
                }
            }
        }
    }
    out
}

/// The bytes of `rev:path`, with the path kept as it is.
pub fn spec_bytes(rev: &str, path: &[u8]) -> (r: Vec<u8>)
    ensures
        r@ == encode_utf8(rev@) + seq![58u8] + path@,
{
    let mut out: Vec<u8> = Vec::new();
    out.extend_from_slice(rev.as_bytes());
    out.push(58u8);
    out.extend_from_slice(path);
    assert(out@ =~= encode_utf8(rev@) + seq![58u8] + path@);
    out
}

/// Bytes without the newlines and carriage returns at their end.
pub open spec fn trimmed(b: Seq<u8>) -> Seq<u8>
    decreases b.len(),
{
    if b.len() > 0 && (b.last() == 10u8 || b.last() == 13u8) {
        trimmed(b.drop_last())
    } else {
        b
    }
}

/// Bytes without the newlines and carriage returns at their end.
pub fn trim_newline(b: &[u8]) -> (r: Vec<u8>)
    ensures
        r@ == trimmed(b@),
{
    let mut out = copy_bytes(b);
    while out.len() > 0 && (out[out.len() - 1] == 10u8 || out[out.len() - 1] == 13u8)
        invariant
            trimmed(out@) == trimmed(b@),
        decreases out@.len(),
    {
        let last = out.pop();
    }
    out
}

/// One line of output as text.
pub fn answer_line(out: &[u8]) -> (r: String)
    ensures
        r@ == lossy_text(trimmed(out@)),
{
    lossy(trim_newline(out).as_slice())
}

/// How much of a command line is shown.
pub const SHOWN_BYTES: usize = 200;

/// The start of a command line with its first `k` arguments, cut off once it is
/// longer than what is shown. The flag says whether it was.
pub open spec fn described(args: Seq<Seq<char>>, k: nat) -> (Seq<char>, bool)
    decreases k,
{
    if k == 0 {
        ("git"@, false)
    } else {
        let (before, cut) = described(args, (k - 1) as nat);
        if cut {
            (before, true)
        } else {
            let s = before + " "@ + args[k - 1];
            if encode_utf8(s).len() > SHOWN_BYTES {
                (s + " …"@, true)
            } else {
                (s, false)
            }
        }
    }
}

/// Nothing is added behind the cut.
proof fn lemma_cut(args: Seq<Seq<char>>, j: nat, k: nat)
    requires
        j <= k,
        described(args, j).1,
    ensures
        described(args, k) == described(args, j),
    decreases k,
{
    if j < k {
        lemma_cut(args, j, (k - 1) as nat);
    }
}

/// A git command as an error names it.
pub fn describe(args: &Vec<String>) -> (r: String)
    ensures
        r@ == described(texts(args@), args@.len()).0,
{
    let mut s = "git".to_owned();
    let ghost all = texts(args@);
    for i in 0..args.len()
        invariant
            all == texts(args@),
            !described(all, i as nat).1,
            s@ == described(all, i as nat).0,
    {
        assert(all[i as int] == args@[i as int]@);
        push_str(&mut s, " ");
        push_str(&mut s, &args[i]);
        if s.as_str().as_bytes().len() > SHOWN_BYTES {
            push_str(&mut s, " …");
            proof {
                lemma_cut(all, (i + 1) as nat, all.len());
            }
            return s;
        }
    }
    s
}

/// How much of what a failed command printed is shown.
pub const SHOWN_ERROR_BYTES: usize = 800;

/// What a failed git command is reported as.
pub fn command_error(args: &Vec<String>, code: Option<i32>, stderr: &[u8]) -> (r: EngineError)
    ensures
        r matches EngineError::GitCommand { command, code: c, stderr: text } && command@
            == described(texts(args@), args@.len()).0 && c == code && text@ == lossy_text(
            start_of(stderr@, SHOWN_ERROR_BYTES as nat),
        ),
{
    EngineError::GitCommand {
        command: describe(args),
        code,
        stderr: excerpt(stderr, SHOWN_ERROR_BYTES),
    }
}

/// The shared git directory, from what git says of it: an absolute path is taken
/// as it is, another one is below the root.
pub fn common_dir(root: &str, answer: &[u8]) -> (r: String)
    ensures
        ({
            let p = lossy_text(trimmed(answer@));
            r@ == (if p.len() > 0 && p[0] == '/' {
                p
            } else {
                under(root@, p)
            })
        }),
{
    let p = answer_line(answer);
    let cs = chars_of(&p);
    if cs.len() > 0 && cs[0] == '/' {
        p
    } else {
        join_path(root, &p)
    }
}

// ---------------------------------------------------------------------------
// Attributes

/// An attribute's value on a path.
#[derive(Debug, Clone, PartialEq, Eq)]
pub struct AttrValue {
    pub path: Vec<u8>,
    pub value: Vec<u8>,
}

/// The values that `check-attr -z` output gives: path, attribute and value in
/// turn. What does not fill a group of three is passed over.
pub fn parse_attrs(out: &[u8]) -> (r: Vec<AttrValue>)
    ensures
        ({
            let f = split(out@, 0u8);
            &&& r@.len() == f.len() / 3
            &&& forall|i: int|
                0 <= i < r@.len() ==> (#[trigger] r@[i]).path@ == f[3 * i] && r@[i].value@ == f[3
                    * i + 2]
        }),
{
    let f = split_bytes(out, 0u8);
    let ghost all = split(out@, 0u8);
    let n: usize = f.len() / 3;
    let mut r: Vec<AttrValue> = Vec::new();
    for i in 0..n
        invariant
            all == views(f@),
            n == f@.len() / 3,
            r@.len() == i,
            forall|k: int|
                0 <= k < i ==> (#[trigger] r@[k]).path@ == all[3 * k] && r@[k].value@ == all[3 * k
                    + 2],
    {
        assert(3 * i + 2 < f.len());
        assert(all[3 * i] == f@[3 * i]@);
        assert(all[3 * i + 2] == f@[3 * i + 2]@);
        r.push(
            AttrValue {
                path: copy_bytes(f[3 * i].as_slice()),
                value: copy_bytes(f[3 * i + 2].as_slice()),
            },
        );
    }
    r
}

// ---------------------------------------------------------------------------
// The index

/// One change to an index.
#[derive(Debug, Clone, PartialEq, Eq)]
pub enum IndexEntry {
    Put { mode: String, oid: String, path: Vec<u8> },
    Remove { path: Vec<u8> },
}

/// One `update-index --index-info` record: `<mode> <oid>\t<path>`, a removal
/// spelled as mode 0.
pub fn index_record(e: &IndexEntry) -> (r: Vec<u8>)
    ensures
        r@ == (match *e {
            IndexEntry::Put { mode, oid, path } => entry_bytes(mode@, oid@, path@),
            IndexEntry::Remove { path } => entry_bytes("0"@, ZERO_OID@, path@),
        }),
{
    match e {
        IndexEntry::Put { mode, oid, path } => index_entry(mode, oid, path.as_slice()),
        IndexEntry::Remove { path } => index_entry("0", ZERO_OID, path.as_slice()),
    }
}

/// What an index record says before its path.
pub open spec fn record_meta(record: Seq<u8>) -> Seq<u8> {
    split(record, 9u8)[0]
}

/// Whether a record of `ls-files -s -z` is of an unmerged path: stage 1, 2 or 3.
pub open spec fn is_unmerged(record: Seq<u8>) -> bool {
    let m = record_meta(record);
    m.len() >= 2 && m[m.len() - 2] == 32u8 && 49u8 <= m.last() <= 51u8
}

/// What an index with unmerged entries is refused with.
pub const UNMERGED: &'static str =
    "index has unmerged entries — resolve conflicts before reviewing uncommitted changes";

/// Refuse an index with unmerged entries.
pub fn check_merged(entries: &[u8]) -> (r: Result<(), EngineError>)
    ensures
        ({
            let records = split(entries@, 0u8);
            let unmerged = exists|i: int| 0 <= i < records.len() && is_unmerged(#[trigger] records[i]);
            match r {
                Ok(_) => !unmerged,
                Err(e) => unmerged && (e matches EngineError::Range(m) && m@ == UNMERGED@),
            }
        }),
{
    let records = split_bytes(entries, 0u8);
    let ghost all = split(entries@, 0u8);
    for i in 0..records.len()
        invariant
            all == split(entries@, 0u8),
            all == views(records@),
            forall|k: int| 0 <= k < i ==> !is_unmerged(#[trigger] all[k]),
    {
        let parts = split_bytes(records[i].as_slice(), 9u8);
        assert(all[i as int] == records@[i as int]@);
        let m = &parts[0];
        assert(views(parts@)[0] == m@);
        let n = m.len();
        if n >= 2 && m[n - 2] == 32u8 && m[n - 1] >= 49u8 && m[n - 1] <= 51u8 {
            assert(is_unmerged(all[i as int]));
            return Err(EngineError::Range(UNMERGED.to_owned()));
        }
    }
    Ok(())
}

// ---------------------------------------------------------------------------
// Frozen argument lists

fn owned(parts: &[&str]) -> (r: Vec<String>)
    ensures
        r@.len() == parts@.len(),
        forall|i: int| 0 <= i < r@.len() ==> (#[trigger] r@[i])@ == parts@[i]@,
{
    let mut out: Vec<String> = Vec::new();
    for i in 0..parts.len()
        invariant
            out@.len() == i,
            forall|k: int| 0 <= k < i ==> (#[trigger] out@[k])@ == parts@[k]@,
    {
        out.push(parts[i].to_owned());
    }
    out
}

/// The raw records of a range: every changed path with its modes and ids.
pub fn raw_records_args(base: &str, head: &str) -> (r: Vec<String>)
    ensures
        texts(r@) == seq![
            "diff-tree"@,
            "-r"@,
            "-z"@,
            "--raw"@,
            "--full-index"@,
            "--no-renames"@,
            base@,
            head@,
        ],
{
    let r = owned(
        &["diff-tree", "-r", "-z", "--raw", "--full-index", "--no-renames", base, head],
    );
    assert(texts(r@) =~= seq![
        "diff-tree"@,
        "-r"@,
        "-z"@,
        "--raw"@,
        "--full-index"@,
        "--no-renames"@,
        base@,
        head@,
    ]);
    r
}

/// The canonical patch of a range: no context, no renames, no colour.
pub fn canonical_patch_args(base: &str, head: &str) -> (r: Vec<String>)
    ensures
        texts(r@) == seq![
            "diff-tree"@,
            "-r"@,
            "-U0"@,
            "--no-renames"@,
            "--no-color"@,
            "--no-ext-diff"@,
            base@,
            head@,
        ],
{
    let r = owned(
        &["diff-tree", "-r", "-U0", "--no-renames", "--no-color", "--no-ext-diff", base, head],
    );
    assert(texts(r@) =~= seq![
        "diff-tree"@,
        "-r"@,
        "-U0"@,
        "--no-renames"@,
        "--no-color"@,
        "--no-ext-diff"@,
        base@,
        head@,
    ]);
    r
}

/// The rename view of a range.
pub fn rename_records_args(base: &str, head: &str) -> (r: Vec<String>)
    ensures
        texts(r@) == seq![
            "diff-tree"@,
            "-r"@,
            "-M"@,
            "-z"@,
            "--name-status"@,
            base@,
            head@,
        ],
{
    let r = owned(&["diff-tree", "-r", "-M", "-z", "--name-status", base, head]);
    assert(texts(r@) =~= seq![
        "diff-tree"@,
        "-r"@,
        "-M"@,
        "-z"@,
        "--name-status"@,
        base@,
        head@,
    ]);
    r
}

/// The patch that is counted again, from base to the rebuilt tree. Spelled out
/// rather than shared with the canonical patch: the two must not move together.
pub fn recount_patch_args(from: &str, to: &str) -> (r: Vec<String>)
    ensures
        texts(r@) == seq!["diff-tree"@, "-r"@, "-U0"@, "--no-renames"@, from@, to@],
{
    let r = owned(&["diff-tree", "-r", "-U0", "--no-renames", from, to]);
    assert(texts(r@) =~= seq!["diff-tree"@, "-r"@, "-U0"@, "--no-renames"@, from@, to@]);
    r
}

/// A list of commits, one a line with a zero byte between its four fields, is read back
/// in order: the id, the short id, the subject and the author of each.
pub proof fn law_commits_are_read_back(
    bytes: &[u8],
    rows: Seq<Seq<Seq<u8>>>,
    r: Vec<CommitSummary>,
)
    requires
        call_ensures(parse_rev_list, (bytes,), r),
        forall|i: int| 0 <= i < rows.len() ==> (#[trigger] rows[i]).len() == 4,
        forall|i: int, k: int|
            0 <= i < rows.len() && 0 <= k < 4 ==> !(#[trigger] rows[i][k]).contains(0u8)
                && !rows[i][k].contains(10u8),
        bytes@ == join(
            Seq::new(rows.len(), |i: int| join(rows[i], 0u8)).push(Seq::<u8>::empty()),
            10u8,
        ),
    ensures
        r@.len() == rows.len(),
        forall|i: int|
            0 <= i < rows.len() ==> {
                &&& (#[trigger] r@[i]).sha@ == lossy_text(rows[i][0])
                &&& r@[i].short@ == lossy_text(rows[i][1])
                &&& r@[i].subject@ == lossy_text(rows[i][2])
                &&& r@[i].author@ == lossy_text(rows[i][3])
            },
{
    let written = Seq::new(rows.len(), |i: int| join(rows[i], 0u8));
    let all = written.push(Seq::<u8>::empty());
    assert forall|i: int| 0 <= i < all.len() implies !(#[trigger] all[i]).contains(10u8) by {
        if i < rows.len() {
            assert(all[i] == join(rows[i], 0u8));
            assert(rows[i].len() == 4);
            assert forall|k: int| 0 <= k < rows[i].len() implies !(#[trigger] rows[i][k]).contains(
                10u8,
            ) by {}
            lemma_join_without(rows[i], 0u8, 10u8);
        }
    }
    law_split_undoes_join(all, 10u8);
    assert(split(bytes@, 10u8) == all);
    lemma_commits(rows, all, rows.len());
    let n = rows.len();
    assert(all[n as int].len() == 0);
    assert(commit_of(all[n as int]) is None);
    let shown = commit_texts(r@);
    assert(shown == commits_of(all, n));
    assert(shown.len() == r@.len());
    assert forall|i: int| 0 <= i < n implies ({
        &&& (#[trigger] r@[i]).sha@ == lossy_text(rows[i][0])
        &&& r@[i].short@ == lossy_text(rows[i][1])
        &&& r@[i].subject@ == lossy_text(rows[i][2])
        &&& r@[i].author@ == lossy_text(rows[i][3])
    }) by {
        assert(shown[i] == commit_text(r@[i]));
    }
}

proof fn lemma_commits(rows: Seq<Seq<Seq<u8>>>, all: Seq<Seq<u8>>, k: nat)
    requires
        k <= rows.len() <= all.len(),
        forall|i: int| 0 <= i < rows.len() ==> (#[trigger] rows[i]).len() == 4,
        forall|i: int, k: int|
            0 <= i < rows.len() && 0 <= k < 4 ==> !(#[trigger] rows[i][k]).contains(0u8)
                && !rows[i][k].contains(10u8),
        forall|i: int| 0 <= i < rows.len() ==> #[trigger] all[i] == join(rows[i], 0u8),
    ensures
        commits_of(all, k).len() == k,
        forall|i: int|
            0 <= i < k ==> #[trigger] commits_of(all, k)[i] == (CommitText {
                sha: lossy_text(rows[i][0]),
                short: lossy_text(rows[i][1]),
                subject: lossy_text(rows[i][2]),
                author: lossy_text(rows[i][3]),
            }),
    decreases k,
{
    if k > 0 {
        lemma_commits(rows, all, (k - 1) as nat);
        let row = rows[k - 1];
        let line = all[k - 1];
        assert(rows[k - 1].len() == 4);
        assert forall|j: int| 0 <= j < row.len() implies !(#[trigger] row[j]).contains(0u8) by {
            assert(!rows[k - 1][j].contains(0u8));
        }
        law_split_undoes_join(row, 0u8);
        assert(line == join(row, 0u8));
        assert(line.len() > 0) by {
            assert(line == join(row.drop_last(), 0u8).push(0u8) + row.last());
        }
        let f = fields(line);
        assert(f.len() == 4);
        assert(f[0] == lossy_text(row[0]) && f[1] == lossy_text(row[1]) && f[2] == lossy_text(
            row[2],
        ) && f[3] == lossy_text(row[3]));
        let before = commits_of(all, (k - 1) as nat);
        let now = commits_of(all, k);
        assert forall|i: int| 0 <= i < k implies #[trigger] now[i] == (CommitText {
            sha: lossy_text(rows[i][0]),
            short: lossy_text(rows[i][1]),
            subject: lossy_text(rows[i][2]),
            author: lossy_text(rows[i][3]),
        }) by {
            if i < k - 1 {
                assert(now[i] == before[i]);
            }
        }
    }
}

/// Whether a line gives a name to a commit: the object that the name leads to in the
/// end, where the line tells it, else the one that it names.
pub open spec fn gives_name(line: Seq<u8>, sha: Seq<char>, name: Seq<char>) -> bool {
    let f = split(line, 0u8);
    &&& line.len() > 0
    &&& f.len() == 3
    &&& name.len() > 0
    &&& lossy_text(f[2]) == name
    &&& lossy_text(f[1]).len() > 0 ==> lossy_text(f[1]) == sha
    &&& lossy_text(f[1]).len() == 0 ==> lossy_text(f[0]) == sha
}

/// A commit has the names that some line gives it, and no others.
pub proof fn law_a_commit_has_the_names_it_was_given(
    bytes: &[u8],
    r: RefNames,
    sha: Seq<char>,
    name: Seq<char>,
)
    requires
        call_ensures(parse_refs, (bytes,), r),
    ensures
        r.names(sha).contains(name) <==> exists|i: int|
            0 <= i < split(bytes@, 10u8).len() && gives_name(
                #[trigger] split(bytes@, 10u8)[i],
                sha,
                name,
            ),
{
    let all = split(bytes@, 10u8);
    lemma_names(all, sha, name, all.len());
}

proof fn lemma_names(all: Seq<Seq<u8>>, sha: Seq<char>, name: Seq<char>, k: nat)
    requires
        k <= all.len(),
    ensures
        names_of(all, sha, k).contains(name) <==> exists|i: int|
            0 <= i < k && gives_name(#[trigger] all[i], sha, name),
    decreases k,
{
    if k > 0 {
        lemma_names(all, sha, name, (k - 1) as nat);
        let line = all[k - 1];
        let f = fields(line);
        let before = names_of(all, sha, (k - 1) as nat);
        assert(f.len() == split(line, 0u8).len());
        assert(gives_name(line, sha, name) <==> ref_of(line) == Some((sha, name)));
        if let Some((target, named)) = ref_of(line) {
            lemma_push_contains(before, named, name);
        }
        if gives_name(line, sha, name) {
            assert(gives_name(all[k - 1], sha, name));
        }
    }
}

/// Only newlines and carriage returns at the end are taken off, and all of them.
pub proof fn law_only_the_end_of_the_line_is_taken_off(b: &[u8], r: Vec<u8>)
    requires
        call_ensures(trim_newline, (b,), r),
    ensures
        r@.len() <= b@.len(),
        r@ == b@.take(r@.len() as int),
        forall|i: int| r@.len() <= i < b@.len() ==> #[trigger] b@[i] == 10 || b@[i] == 13,
        r@.len() > 0 ==> r@.last() != 10 && r@.last() != 13,
{
    lemma_trimmed(b@);
}

proof fn lemma_trimmed(b: Seq<u8>)
    ensures
        trimmed(b).len() <= b.len(),
        trimmed(b) == b.take(trimmed(b).len() as int),
        forall|i: int| trimmed(b).len() <= i < b.len() ==> #[trigger] b[i] == 10 || b[i] == 13,
        trimmed(b).len() > 0 ==> trimmed(b).last() != 10 && trimmed(b).last() != 13,
    decreases b.len(),
{
    if b.len() > 0 && (b.last() == 10u8 || b.last() == 13u8) {
        let p = b.drop_last();
        lemma_trimmed(p);
        let n = trimmed(p).len() as int;
        assert(p.take(n) =~= b.take(n));
        assert forall|i: int| n <= i < b.len() implies #[trigger] b[i] == 10 || b[i] == 13 by {
            if i < p.len() {
                assert(p[i] == b[i]);
            }
        }
    } else {
        assert(b.take(b.len() as int) =~= b);
    }
}

} // verus!
