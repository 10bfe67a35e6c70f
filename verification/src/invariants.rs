//! The invariants of an enumeration.
//!
//! They fall into two halves, and the split is the write boundary. Applier
//! fidelity and hunk accounting only read; no document is emitted when either
//! fails. The tree assertion and the recount build a tree, so they write, and run
//! only for a consumer that reconstructs a tree.
use vstd::prelude::*;

use crate::apply::{applied, apply_hunks, base_lines, by_position, fits, hunks_fit};
use crate::model::{DiffView, Disposition, FileChange, Hunk};
use crate::plan::staging::opt;
use crate::ports::{ObjectReader, ObjectWriter, RecountSource, TreeBuilder, TreeResolver};
use crate::seqs::{bytes_eq, split, split_bytes, texts, views};
use crate::tree::{build_tree, is_built_tree};
use crate::text::{decimal, lossy, lossy_text, occurs_at, push_decimal, push_str, str_eq};
use crate::EngineError;

verus! {

/// What the checks found.
#[derive(Debug, Clone)]
pub struct InvariantReport {
    pub files_total: usize,
    /// Text files (not binary, not submodules) checked byte for byte.
    pub applier_total: usize,
    pub applier_ok: usize,
    pub applier_mismatches: Vec<String>,
    /// Binary files verified by object id instead of by reconstruction.
    pub binary_oid_checked: usize,
    pub hunks_total: usize,
    pub accounting_ok: bool,
    /// The half that needs a built tree. `None` means that it did not run, not
    /// that it ran and passed.
    pub tree: Option<TreeReport>,
}

/// The half that needs a built tree, and so a write.
#[derive(Debug, Clone)]
pub struct TreeReport {
    pub built_tree: Option<String>,
    pub head_tree: String,
    pub tree_ok: bool,
    pub recount: usize,
    pub recount_ok: bool,
}

pub open spec fn verdict(ok: bool) -> Seq<char> {
    if ok {
        "PASS"@
    } else {
        "FAIL"@
    }
}

fn verdict_text(ok: bool) -> (r: &'static str)
    ensures
        r@ == verdict(ok),
{
    if ok {
        "PASS"
    } else {
        "FAIL"
    }
}

/// One line for each mismatch.
pub open spec fn mismatch_lines(ms: Seq<Seq<char>>) -> Seq<char>
    decreases ms.len(),
{
    if ms.len() == 0 {
        Seq::empty()
    } else {
        mismatch_lines(ms.drop_last()) + "           mismatch: "@ + ms.last() + "\n"@
    }
}

impl InvariantReport {
    /// Whether the read-only half passed.
    pub open spec fn faithful(&self) -> bool {
        self.applier_mismatches@.len() == 0 && self.applier_ok == self.applier_total
            && self.accounting_ok
    }

    /// The read-only half: the condition on emitting a document at all.
    pub fn fidelity_ok(&self) -> (r: bool)
        ensures
            r == self.faithful(),
    {
        self.applier_mismatches.len() == 0 && self.applier_ok == self.applier_total
            && self.accounting_ok
    }

    /// Both halves. False when the tree half never ran: a caller that wants the
    /// weaker claim asks `fidelity_ok`.
    pub fn all_ok(&self) -> (r: bool)
        ensures
            r == (self.faithful() && (self.tree matches Some(t) && t.tree_ok && t.recount_ok)),
    {
        if !self.fidelity_ok() {
            return false;
        }
        match &self.tree {
            Some(t) => t.tree_ok && t.recount_ok,
            None => false,
        }
    }

    /// "n/n" for the audit block.
    pub open spec fn exact(&self) -> Seq<char> {
        decimal(self.applier_ok as nat) + "/"@ + decimal(self.applier_total as nat)
    }

    /// "n/n" for the audit block.
    pub fn applier_exact(&self) -> (r: String)
        ensures
            r@ == self.exact(),
    {
        let mut out = String::new();
        push_decimal(&mut out, self.applier_ok as u64);
        push_str(&mut out, "/");
        push_decimal(&mut out, self.applier_total as u64);
        assert(out@ =~= self.exact());
        out
    }

    /// The totals and the read-only half, as text.
    pub open spec fn fidelity_text(&self) -> Seq<char> {
        "files      "@ + decimal(self.files_total as nat) + " ("@ + decimal(
            self.binary_oid_checked as nat,
        ) + " binary, checked by oid only — tree assertion is tautological for those)\n"@
            + "hunks      "@ + decimal(self.hunks_total as nat) + "\n"@
            + "inv1 applier fidelity   "@ + self.exact() + "  "@ + verdict(
            self.applier_mismatches@.len() == 0,
        ) + "\n"@ + mismatch_lines(texts(self.applier_mismatches@)) + "inv2 hunk accounting    "@
            + verdict(self.accounting_ok) + "\n"@
    }

    /// The tree half, as text: that it did not run is said, a blank would read as
    /// a pass.
    pub open spec fn tree_text(&self) -> Seq<char> {
        match self.tree {
            None => "inv3 tree assertion     NOT RUN\n"@ + "inv4 independent recount NOT RUN"@,
            Some(t) => "inv3 tree assertion     "@ + verdict(t.tree_ok) + "  built "@ + (
            match opt(t.built_tree) {
                Some(b) => b,
                None => "(not built)"@,
            }) + " head "@ + t.head_tree@ + "\n"@ + "inv4 independent recount "@ + decimal(
                t.recount as nat,
            ) + " of "@ + decimal(self.hunks_total as nat) + "  "@ + verdict(t.recount_ok) + "\n"@
                + "note: tree building writes unreferenced loose objects into the odb (gc-able)"@,
        }
    }

    fn fidelity_part(&self) -> (r: String)
        ensures
            r@ == self.fidelity_text(),
    {
        let mut out = "files      ".to_owned();
        push_decimal(&mut out, self.files_total as u64);
        push_str(&mut out, " (");
        push_decimal(&mut out, self.binary_oid_checked as u64);
        push_str(
            &mut out,
            " binary, checked by oid only — tree assertion is tautological for those)\n",
        );
        push_str(&mut out, "hunks      ");
        push_decimal(&mut out, self.hunks_total as u64);
        push_str(&mut out, "\n");
        push_str(&mut out, "inv1 applier fidelity   ");
        push_str(&mut out, &self.applier_exact());
        push_str(&mut out, "  ");
        push_str(&mut out, verdict_text(self.applier_mismatches.len() == 0));
        push_str(&mut out, "\n");
        push_str(&mut out, &lines_of_mismatches(&self.applier_mismatches));
        push_str(&mut out, "inv2 hunk accounting    ");
        push_str(&mut out, verdict_text(self.accounting_ok));
        push_str(&mut out, "\n");
        out
    }

    fn tree_part(&self) -> (r: String)
        ensures
            r@ == self.tree_text(),
    {
        match &self.tree {
            None => {
                let mut out = "inv3 tree assertion     NOT RUN\n".to_owned();
                push_str(&mut out, "inv4 independent recount NOT RUN");
                out
            },
            Some(t) => {
                let mut out = "inv3 tree assertion     ".to_owned();
                push_str(&mut out, verdict_text(t.tree_ok));
                push_str(&mut out, "  built ");
                match &t.built_tree {
                    Some(b) => {
                        push_str(&mut out, b);
                    },
                    None => {
                        push_str(&mut out, "(not built)");
                    },
                }
                push_str(&mut out, " head ");
                push_str(&mut out, &t.head_tree);
                push_str(&mut out, "\n");
                push_str(&mut out, "inv4 independent recount ");
                push_decimal(&mut out, t.recount as u64);
                push_str(&mut out, " of ");
                push_decimal(&mut out, self.hunks_total as u64);
                push_str(&mut out, "  ");
                push_str(&mut out, verdict_text(t.recount_ok));
                push_str(&mut out, "\n");
                push_str(
                    &mut out,
                    "note: tree building writes unreferenced loose objects into the odb (gc-able)",
                );
                out
            },
        }
    }

    /// The human form of the report: totals and invariants, one per line.
    pub fn to_string(&self) -> (r: String)
        ensures
            r@ == self.fidelity_text() + self.tree_text(),
    {
        let mut out = self.fidelity_part();
        push_str(&mut out, &self.tree_part());
        out
    }
}

fn lines_of_mismatches(list: &Vec<String>) -> (r: String)
    ensures
        r@ == mismatch_lines(texts(list@)),
{
    let mut out = String::new();
    let ghost ms = texts(list@);
    for i in 0..list.len()
        invariant
            ms == texts(list@),
            out@ == mismatch_lines(ms.take(i as int)),
    {
        assert(ms.take(i + 1).drop_last() =~= ms.take(i as int));
        push_str(&mut out, "           mismatch: ");
        push_str(&mut out, &list[i]);
        push_str(&mut out, "\n");
    }
    assert(ms.take(ms.len() as int) =~= ms);
    out
}

/// How the applier's fidelity is verified for one file.
#[derive(Debug, Clone, Copy, PartialEq, Eq)]
pub enum Fidelity<'a> {
    /// Submodules: a gitlink has no content to reconstruct.
    Skip,
    /// Binary: no hunks exist, so the recorded id is all there is to check.
    ByOid(&'a str),
    /// Binary with nothing recorded: counted, but there is nothing to assert.
    NoOid,
    /// Text: rebuild from base and hunks and compare byte for byte.
    Reconstruct,
}

/// Whether a file is text: neither a submodule nor binary.
pub open spec fn is_text(f: FileChange) -> bool {
    f.submodule is None && !f.binary
}

/// Whether a file is binary and no submodule.
pub open spec fn is_binary(f: FileChange) -> bool {
    f.submodule is None && f.binary
}

/// How a file is verified.
pub fn fidelity(f: &FileChange) -> (r: Fidelity<'_>)
    ensures
        match r {
            Fidelity::Skip => f.submodule is Some,
            Fidelity::ByOid(oid) => is_binary(*f) && opt(f.new_oid) == Some(oid@),
            Fidelity::NoOid => is_binary(*f) && f.new_oid is None,
            Fidelity::Reconstruct => is_text(*f),
        },
{
    if f.submodule.is_some() {
        return Fidelity::Skip;
    }
    if f.binary {
        return match &f.new_oid {
            Some(oid) => Fidelity::ByOid(oid.as_str()),
            None => Fidelity::NoOid,
        };
    }
    Fidelity::Reconstruct
}

/// What the repository holds of one file on both sides; `None` where the path is
/// absent.
#[derive(Debug, Clone)]
pub struct Contents {
    pub base: Option<Vec<u8>>,
    pub head: Option<Vec<u8>>,
}

pub open spec fn bytes_opt(o: Option<Vec<u8>>) -> Option<Seq<u8>> {
    match o {
        Some(v) => Some(v@),
        None => None,
    }
}

/// The hunks of a file.
pub open spec fn hunks_of<'a>(view: &'a DiffView, f: FileChange) -> Seq<&'a Hunk> {
    Seq::new(f.hunks@.len(), |i: int| &view.hunks@[f.hunks@[i] as int])
}

/// Whether a file's hunks are there and can be applied to its base.
pub open spec fn applicable(view: &DiffView, f: FileChange, base: Option<Seq<u8>>) -> bool {
    &&& forall|i: int| 0 <= i < f.hunks@.len() ==> (#[trigger] f.hunks@[i]) < view.hunks@.len()
    &&& fits(base_lines(base).len() as int, by_position(hunks_of(view, f)))
}

/// What the hunks make of a file.
pub open spec fn rebuilt(view: &DiffView, f: FileChange, c: Contents) -> Seq<u8> {
    applied(bytes_opt(c.base), hunks_of(view, f))
}

/// What a file should be: nothing after a deletion, else what the head holds.
pub open spec fn wanted(f: FileChange, c: Contents) -> Seq<u8> {
    if f.disposition == Disposition::Deleted {
        Seq::empty()
    } else {
        match bytes_opt(c.head) {
            Some(b) => b,
            None => Seq::empty(),
        }
    }
}

/// What is said of a file that is not rebuilt exactly.
pub open spec fn mismatch_text(path: Seq<u8>, got: nat, want: nat) -> Seq<char> {
    lossy_text(path) + ": reconstructed "@ + decimal(got) + "B, expected "@ + decimal(want) + "B"@
}

/// What is said of the text files among the first `k` that are not rebuilt
/// exactly.
pub open spec fn mismatches(view: &DiffView, contents: Seq<Contents>, k: nat) -> Seq<Seq<char>>
    decreases k,
{
    if k == 0 {
        Seq::empty()
    } else {
        let before = mismatches(view, contents, (k - 1) as nat);
        let f = view.files@[k - 1];
        let got = rebuilt(view, f, contents[k - 1]);
        let want = wanted(f, contents[k - 1]);
        if is_text(f) && got != want {
            before.push(mismatch_text(f.path@, got.len(), want.len()))
        } else {
            before
        }
    }
}

/// The number of text files among the first `k`.
pub open spec fn text_count(view: &DiffView, k: nat) -> nat
    decreases k,
{
    if k == 0 {
        0
    } else {
        text_count(view, (k - 1) as nat) + if is_text(view.files@[k - 1]) {
            1nat
        } else {
            0nat
        }
    }
}

/// The number of binary files among the first `k`.
pub open spec fn binary_count(view: &DiffView, k: nat) -> nat
    decreases k,
{
    if k == 0 {
        0
    } else {
        binary_count(view, (k - 1) as nat) + if is_binary(view.files@[k - 1]) {
            1nat
        } else {
            0nat
        }
    }
}

/// Every hunk belongs to exactly one file, and that file agrees: files list only
/// hunks of their own, none twice, and every hunk is listed by its file.
pub open spec fn accounted(view: &DiffView) -> bool {
    &&& forall|f: int| 0 <= f < view.files@.len() ==> owns_its_list(view, f)
    &&& forall|h: int| 0 <= h < view.hunks@.len() ==> is_listed(view, h)
}

pub open spec fn owns_its_list(view: &DiffView, f: int) -> bool {
    let list = view.files@[f].hunks@;
    &&& forall|k: int|
        0 <= k < list.len() ==> (#[trigger] list[k]) < view.hunks@.len()
            && view.hunks@[list[k] as int].file == f
    &&& forall|k: int, l: int| 0 <= k < l < list.len() ==> list[k] != list[l]
}

pub open spec fn is_listed(view: &DiffView, h: int) -> bool {
    exists|f: int, k: int|
        0 <= f < view.files@.len() && 0 <= k < view.files@[f].hunks@.len()
            && #[trigger] view.files@[f].hunks@[k] == h
}

/// Whether a hunk is listed by one of the first `f` files, or among the first `k`
/// of file `f`.
spec fn listed_by(view: &DiffView, f: int, k: int, h: int) -> bool {
    exists|g: int, l: int|
        0 <= g < view.files@.len() && 0 <= l < view.files@[g].hunks@.len() && (g < f || (g == f && l
            < k)) && #[trigger] view.files@[g].hunks@[l] == h
}

/// Hunk accounting, entire: a statement about the view's own consistency.
pub fn check_accounting(view: &DiffView) -> (r: bool)
    ensures
        r == accounted(view),
{
    let mut seen: Vec<bool> = Vec::new();
    for i in 0..view.hunks.len()
        invariant
            seen@.len() == i,
            forall|h: int| 0 <= h < i ==> !(#[trigger] seen@[h]),
    {
        seen.push(false);
    }
    for f in 0..view.files.len()
        invariant
            seen@.len() == view.hunks@.len(),
            forall|g: int| 0 <= g < f ==> owns_its_list(view, g),
            forall|h: int|
                0 <= h < seen@.len() ==> (#[trigger] seen@[h] <==> listed_by(
                    view,
                    f as int,
                    0,
                    h,
                )),
    {
        let list = &view.files[f].hunks;
        for k in 0..list.len()
            invariant
                f < view.files@.len(),
                *list == view.files@[f as int].hunks,
                seen@.len() == view.hunks@.len(),
                forall|g: int| 0 <= g < f ==> owns_its_list(view, g),
                forall|l: int|
                    0 <= l < k ==> (#[trigger] list@[l]) < view.hunks@.len()
                        && view.hunks@[list@[l] as int].file == f,
                forall|l: int, m: int| 0 <= l < m < k ==> list@[l] != list@[m],
                forall|h: int|
                    0 <= h < seen@.len() ==> (#[trigger] seen@[h] <==> listed_by(
                        view,
                        f as int,
                        k as int,
                        h,
                    )),
        {
            let h = list[k];
            if h >= seen.len() {
                assert(!owns_its_list(view, f as int)) by {
                    assert(view.files@[f as int].hunks@[k as int] == h);
                }
                return false;
            }
            if view.hunks[h].file != f {
                assert(!owns_its_list(view, f as int)) by {
                    assert(view.files@[f as int].hunks@[k as int] == h);
                }
                return false;
            }
            if seen[h] {
                proof {
                    let (g, l) = choose|g: int, l: int|
                        0 <= g < view.files@.len() && 0 <= l < view.files@[g].hunks@.len() && (g < f
                            || (g == f && l < k)) && #[trigger] view.files@[g].hunks@[l] == h;
                    if g < f {
                        assert(owns_its_list(view, g));
                        assert(view.hunks@[view.files@[g].hunks@[l] as int].file == g);
                        assert(false);
                    } else {
                        assert(!owns_its_list(view, f as int)) by {
                            assert(view.files@[f as int].hunks@[l]
                                == view.files@[f as int].hunks@[k as int]);
                        }
                    }
                }
                return false;
            }
            let ghost was = seen@;
            seen.set(h, true);
            proof {
                assert forall|x: int| 0 <= x < seen@.len() implies (#[trigger] seen@[x]
                    <==> listed_by(view, f as int, k + 1, x)) by {
                    if x == h {
                        assert(view.files@[f as int].hunks@[k as int] == h);
                    } else {
                        assert(seen@[x] == was[x]);
                        if listed_by(view, f as int, k as int, x) {
                            let (g, l) = choose|g: int, l: int|
                                0 <= g < view.files@.len() && 0 <= l < view.files@[g].hunks@.len()
                                    && (g < f || (g == f && l < k))
                                    && #[trigger] view.files@[g].hunks@[l] == x;
                            assert(view.files@[g].hunks@[l] == x);
                        }
                        if listed_by(view, f as int, k + 1, x) {
                            let (g, l) = choose|g: int, l: int|
                                0 <= g < view.files@.len() && 0 <= l < view.files@[g].hunks@.len()
                                    && (g < f || (g == f && l < k + 1))
                                    && #[trigger] view.files@[g].hunks@[l] == x;
                            assert(!(g == f && l == k));
                            assert(view.files@[g].hunks@[l] == x);
                        }
                    }
                }
                assert forall|l: int, m: int| 0 <= l < m < k + 1 implies list@[l] != list@[m] by {
                    if m == k && list@[l] == h {
                        assert(view.files@[f as int].hunks@[l] == h);
                        assert(listed_by(view, f as int, k as int, h as int));
                    }
                }
            }
        }
        proof {
            assert(owns_its_list(view, f as int));
            assert forall|h: int| 0 <= h < seen@.len() implies (#[trigger] seen@[h] <==> listed_by(
                view,
                f + 1,
                0,
                h,
            )) by {
                if listed_by(view, f as int, list@.len() as int, h) {
                    let (g, l) = choose|g: int, l: int|
                        0 <= g < view.files@.len() && 0 <= l < view.files@[g].hunks@.len() && (g < f
                            || (g == f && l < list@.len()))
                            && #[trigger] view.files@[g].hunks@[l] == h;
                    assert(view.files@[g].hunks@[l] == h);
                }
                if listed_by(view, f + 1, 0, h) {
                    let (g, l) = choose|g: int, l: int|
                        0 <= g < view.files@.len() && 0 <= l < view.files@[g].hunks@.len() && (g < f
                            + 1 || (g == f + 1 && l < 0))
                            && #[trigger] view.files@[g].hunks@[l] == h;
                    assert(view.files@[g].hunks@[l] == h);
                }
            }
        }
    }
    for h in 0..seen.len()
        invariant
            seen@.len() == view.hunks@.len(),
            forall|x: int|
                0 <= x < seen@.len() ==> (#[trigger] seen@[x] <==> listed_by(
                    view,
                    view.files@.len() as int,
                    0,
                    x,
                )),
            forall|x: int| 0 <= x < h ==> is_listed(view, x),
    {
        if !seen[h] {
            proof {
                if is_listed(view, h as int) {
                    let (g, l) = choose|g: int, l: int|
                        0 <= g < view.files@.len() && 0 <= l < view.files@[g].hunks@.len()
                            && #[trigger] view.files@[g].hunks@[l] == h;
                    assert(listed_by(view, view.files@.len() as int, 0, h as int));
                }
                assert(!is_listed(view, h as int));
            }
            return false;
        }
        proof {
            assert(listed_by(view, view.files@.len() as int, 0, h as int));
            let (g, l) = choose|g: int, l: int|
                0 <= g < view.files@.len() && 0 <= l < view.files@[g].hunks@.len() && (g
                    < view.files@.len() || (g == view.files@.len() && l < 0))
                    && #[trigger] view.files@[g].hunks@[l] == h;
            assert(is_listed(view, h as int));
        }
    }
    true
}

/// Rebuild a file from its base and its hunks.
pub fn reconstruct(view: &DiffView, f: &FileChange, base: &Option<Vec<u8>>) -> (r: Vec<u8>)
    requires
        applicable(view, *f, bytes_opt(*base)),
    ensures
        r@ == applied(bytes_opt(*base), hunks_of(view, *f)),
{
    let mut hunks: Vec<&Hunk> = Vec::new();
    for i in 0..f.hunks.len()
        invariant
            forall|i: int| 0 <= i < f.hunks@.len() ==> (#[trigger] f.hunks@[i]) < view.hunks@.len(),
            hunks@ == hunks_of(view, *f).take(i as int),
    {
        assert(f.hunks@[i as int] < view.hunks@.len());
        hunks.push(&view.hunks[f.hunks[i]]);
        assert(hunks@ =~= hunks_of(view, *f).take(i + 1));
    }
    assert(hunks@ =~= hunks_of(view, *f));
    match base {
        Some(b) => apply_hunks(Some(b.as_slice()), hunks.as_slice()),
        None => apply_hunks(None, hunks.as_slice()),
    }
}

/// Whether a report is the one on applier fidelity and hunk accounting, given the
/// contents of every file.
pub open spec fn is_fidelity(r: InvariantReport, view: &DiffView, contents: Seq<Contents>) -> bool {
    &&& r.files_total == view.files@.len()
    &&& r.hunks_total == view.hunks@.len()
    &&& r.applier_total == text_count(view, view.files@.len())
    &&& texts(r.applier_mismatches@) == mismatches(view, contents, view.files@.len())
    &&& r.applier_ok == r.applier_total - r.applier_mismatches@.len()
    &&& r.binary_oid_checked == binary_count(view, view.files@.len())
    &&& r.accounting_ok == accounted(view)
    &&& r.tree is None
}

/// Whether the hunks of every text file can be applied.
pub open spec fn all_applicable(view: &DiffView, contents: Seq<Contents>, k: int) -> bool {
    forall|i: int|
        0 <= i < k && is_text(#[trigger] view.files@[i]) ==> applicable(
            view,
            view.files@[i],
            bytes_opt(contents[i].base),
        )
}

/// Applier fidelity and hunk accounting, with the contents of every file at hand.
pub fn fidelity_report(view: &DiffView, contents: &Vec<Contents>) -> (r: InvariantReport)
    requires
        contents@.len() == view.files@.len(),
        all_applicable(view, contents@, view.files@.len() as int),
    ensures
        is_fidelity(r, view, contents@),
{
    let mut total: usize = 0;
    let mut ok: usize = 0;
    let mut bad: Vec<String> = Vec::new();
    let mut binary: usize = 0;
    assert(texts(bad@) =~= mismatches(view, contents@, 0));
    for i in 0..view.files.len()
        invariant
            contents@.len() == view.files@.len(),
            all_applicable(view, contents@, view.files@.len() as int),
            total <= i,
            binary <= i,
            total == text_count(view, i as nat),
            binary == binary_count(view, i as nat),
            texts(bad@) == mismatches(view, contents@, i as nat),
            ok + bad@.len() == total,
    {
        let f = &view.files[i];
        match fidelity(f) {
            Fidelity::Skip => {},
            Fidelity::ByOid(_) => {
                binary = binary + 1;
            },
            Fidelity::NoOid => {
                binary = binary + 1;
            },
            Fidelity::Reconstruct => {
                total = total + 1;
                let got = reconstruct(view, f, &contents[i].base);
                let want: Vec<u8> = if f.disposition == Disposition::Deleted {
                    let none: Vec<u8> = Vec::new();
                    assert(none@ =~= Seq::<u8>::empty());
                    none
                } else {
                    match &contents[i].head {
                        Some(h) => crate::seqs::copy_bytes(h),
                        None => {
                            let none: Vec<u8> = Vec::new();
                            assert(none@ =~= Seq::<u8>::empty());
                            none
                        },
                    }
                };
                if bytes_eq(&got, &want) {
                    ok = ok + 1;
                } else {
                    let mut msg = lossy(&f.path);
                    push_str(&mut msg, ": reconstructed ");
                    push_decimal(&mut msg, got.len() as u64);
                    push_str(&mut msg, "B, expected ");
                    push_decimal(&mut msg, want.len() as u64);
                    push_str(&mut msg, "B");
                    assert(msg@ =~= mismatch_text(f.path@, got@.len(), want@.len()));
                    let ghost had = texts(bad@);
                    let ghost said = msg@;
                    bad.push(msg);
                    assert(texts(bad@) =~= had.push(said));
                }
            },
        }
    }
    InvariantReport {
        files_total: view.files.len(),
        applier_total: total,
        applier_ok: ok,
        applier_mismatches: bad,
        binary_oid_checked: binary,
        hunks_total: view.hunks.len(),
        accounting_ok: check_accounting(view),
        tree: None,
    }
}

// ---------------------------------------------------------------------------
// What is read for the checks

/// Whether a repository may answer so for the content at a path of a revision.
pub open spec fn blob_answer<G: ObjectReader>(
    git: &G,
    rev: Seq<char>,
    path: Seq<u8>,
    answer: Result<Option<Vec<u8>>, EngineError>,
) -> bool {
    exists|r: &str, p: &[u8]|
        r@ == rev && p@ == path && #[trigger] call_ensures(G::blob, (git, r, p), answer)
}

/// Whether a repository may answer so for the presence of an object.
pub open spec fn object_answer<G: ObjectReader>(
    git: &G,
    oid: Seq<char>,
    answer: Result<(), EngineError>,
) -> bool {
    exists|o: &str| o@ == oid && #[trigger] call_ensures(G::require_object, (git, o), answer)
}

/// Whether a file was read: a text file on both sides, unless it is gone from the
/// head; of a binary one the recorded object is there.
pub open spec fn was_read<G: ObjectReader>(
    git: &G,
    base: Seq<char>,
    head: Seq<char>,
    f: FileChange,
    c: Contents,
) -> bool {
    &&& is_text(f) ==> blob_answer(git, base, f.path@, Ok(c.base)) && (f.disposition
        != Disposition::Deleted ==> blob_answer(git, head, f.path@, Ok(c.head)))
    &&& is_binary(f) ==> (f.new_oid matches Some(oid) ==> exists|answer: Result<(), EngineError>|
        answer is Ok && #[trigger] object_answer(git, oid@, answer))
}

/// What is said of a file whose hunks do not fit its base.
pub open spec fn is_misfit(e: EngineError, path: Seq<u8>) -> bool {
    e matches EngineError::Invariant(m) && m@ == "the hunks of "@ + lossy_text(path)
        + " do not fit its base"@
}

/// Whether reading a file failed with an error.
pub open spec fn was_refused<G: ObjectReader>(
    git: &G,
    base: Seq<char>,
    head: Seq<char>,
    view: &DiffView,
    f: FileChange,
    e: EngineError,
) -> bool {
    ||| is_text(f) && blob_answer(git, base, f.path@, Err(e))
    ||| is_text(f) && f.disposition != Disposition::Deleted && blob_answer(git, head, f.path@, Err(e))
    ||| is_binary(f) && (f.new_oid matches Some(oid) && object_answer(git, oid@, Err(e)))
    ||| is_text(f) && is_misfit(e, f.path@) && exists|c: Option<Vec<u8>>|
        #[trigger] blob_answer(git, base, f.path@, Ok(c)) && !applicable(view, f, bytes_opt(c))
}

/// Whether contents are what a repository gave for the first `k` files.
pub open spec fn all_read<G: ObjectReader>(
    git: &G,
    base: Seq<char>,
    head: Seq<char>,
    view: &DiffView,
    contents: Seq<Contents>,
    k: int,
) -> bool {
    forall|i: int|
        0 <= i < k ==> was_read(git, base, head, #[trigger] view.files@[i], contents[i])
}

/// The hunks of a file, if they are there and fit a base.
pub fn fitting_hunks<'a>(view: &'a DiffView, f: &FileChange, base: &Option<Vec<u8>>) -> (r: Option<
    Vec<&'a Hunk>,
>)
    ensures
        match r {
            Some(hs) => applicable(view, *f, bytes_opt(*base)) && hs@ == hunks_of(view, *f),
            None => !applicable(view, *f, bytes_opt(*base)),
        },
{
    let mut hunks: Vec<&Hunk> = Vec::new();
    for i in 0..f.hunks.len()
        invariant
            forall|k: int| 0 <= k < i ==> (#[trigger] f.hunks@[k]) < view.hunks@.len(),
            hunks@ == hunks_of(view, *f).take(i as int),
    {
        if f.hunks[i] >= view.hunks.len() {
            assert(f.hunks@[i as int] >= view.hunks@.len());
            return None;
        }
        hunks.push(&view.hunks[f.hunks[i]]);
        assert(hunks@ =~= hunks_of(view, *f).take(i + 1));
    }
    assert(hunks@ =~= hunks_of(view, *f));
    let fit = match base {
        Some(b) => hunks_fit(Some(b.as_slice()), hunks.as_slice()),
        None => hunks_fit(None, hunks.as_slice()),
    };
    if fit {
        Some(hunks)
    } else {
        None
    }
}

/// What is said of a file whose hunks do not fit its base.
pub fn misfit(path: &[u8]) -> (r: EngineError)
    ensures
        is_misfit(r, path@),
{
    let mut msg = "the hunks of ".to_owned();
    push_str(&mut msg, &lossy(path));
    push_str(&mut msg, " do not fit its base");
    EngineError::Invariant(msg)
}

/// Read one file.
fn read_file<G: ObjectReader>(git: &G, base: &str, head: &str, view: &DiffView, f: &FileChange) -> (r:
    Result<Contents, EngineError>)
    ensures
        match r {
            Ok(c) => was_read(git, base@, head@, *f, c) && (is_text(*f) ==> applicable(
                view,
                *f,
                bytes_opt(c.base),
            )),
            Err(e) => was_refused(git, base@, head@, view, *f, e),
        },
{
    let path = f.path.as_slice();
    match fidelity(f) {
        Fidelity::Skip | Fidelity::NoOid => Ok(Contents { base: None, head: None }),
        Fidelity::ByOid(oid) => {
            let answer = git.require_object(oid);
            assert(object_answer(git, oid@, answer));
            match answer {
                Ok(_) => Ok(Contents { base: None, head: None }),
                Err(e) => Err(e),
            }
        },
        Fidelity::Reconstruct => {
            let answer = git.blob(base, path);
            assert(blob_answer(git, base@, f.path@, answer));
            let old_content = match answer {
                Ok(c) => c,
                Err(e) => {
                    return Err(e);
                },
            };
            if fitting_hunks(view, f, &old_content).is_none() {
                return Err(misfit(path));
            }
            if f.disposition == Disposition::Deleted {
                return Ok(Contents { base: old_content, head: None });
            }
            let answer = git.blob(head, path);
            assert(blob_answer(git, head@, f.path@, answer));
            match answer {
                Ok(c) => Ok(Contents { base: old_content, head: c }),
                Err(e) => Err(e),
            }
        },
    }
}

/// The read-only half, on a repository: every text file is rebuilt from its base and
/// its hunks and compared byte for byte, every binary one's recorded object must be
/// there, and every hunk is accounted for.
pub fn check_fidelity<G: ObjectReader>(git: &G, base: &str, head: &str, view: &DiffView) -> (r:
    Result<InvariantReport, EngineError>)
    ensures
        match r {
            Ok(report) => exists|contents: Seq<Contents>|
                {
                    &&& contents.len() == view.files@.len()
                    &&& #[trigger] is_fidelity(report, view, contents)
                    &&& all_read(git, base@, head@, view, contents, view.files@.len() as int)
                },
            Err(e) => exists|i: int|
                0 <= i < view.files@.len() && was_refused(
                    git,
                    base@,
                    head@,
                    view,
                    #[trigger] view.files@[i],
                    e,
                ),
        },
{
    let mut contents: Vec<Contents> = Vec::new();
    for i in 0..view.files.len()
        invariant
            contents@.len() == i,
            all_read(git, base@, head@, view, contents@, i as int),
            all_applicable(view, contents@, i as int),
    {
        let ghost had = contents@;
        match read_file(git, base, head, view, &view.files[i]) {
            Ok(c) => {
                contents.push(c);
                assert forall|k: int| 0 <= k < i + 1 implies was_read(
                    git,
                    base@,
                    head@,
                    #[trigger] view.files@[k],
                    contents@[k],
                ) by {
                    if k < i {
                        assert(contents@[k] == had[k]);
                    }
                }
                assert forall|k: int| 0 <= k < i + 1 && is_text(#[trigger] view.files@[k]) implies applicable(
                    view,
                    view.files@[k],
                    bytes_opt(contents@[k].base),
                ) by {
                    if k < i {
                        assert(contents@[k] == had[k]);
                    }
                }
            },
            Err(e) => {
                assert(was_refused(git, base@, head@, view, view.files@[i as int], e));
                return Err(e);
            },
        }
    }
    let report = fidelity_report(view, &contents);
    assert(is_fidelity(report, view, contents@));
    Ok(report)
}

/// Where every text file is rebuilt exactly and the accounting holds, the report
/// says so, and only there.
pub proof fn law_faithful_means_every_file_is_exact(view: &DiffView, contents: Seq<Contents>, k: nat)
    requires
        k <= view.files@.len(),
        contents.len() == view.files@.len(),
    ensures
        mismatches(view, contents, k).len() == 0 <==> forall|i: int|
            0 <= i < k && is_text(#[trigger] view.files@[i]) ==> rebuilt(
                view,
                view.files@[i],
                contents[i],
            ) == wanted(view.files@[i], contents[i]),
    decreases k,
{
    if k > 0 {
        law_faithful_means_every_file_is_exact(view, contents, (k - 1) as nat);
        assert(view.files@[k - 1] == view.files@[k - 1]);
    }
}

/// Whether the applier passed.
pub open spec fn applier_passed(r: InvariantReport) -> bool {
    r.applier_mismatches@.len() == 0 && r.applier_ok == r.applier_total
}

/// Whether the tree may be built: never on a broken applier, or the tree assertion
/// is made on top of a failure it cannot see.
pub fn may_build_tree(fidelity: &InvariantReport) -> (r: bool)
    ensures
        r == applier_passed(*fidelity),
{
    fidelity.applier_mismatches.len() == 0 && fidelity.applier_ok == fidelity.applier_total
}

/// Whether a report is the one on the tree assertion and the recount. `built` is the
/// tree that was written from the hunks, with the patch that git prints for it.
pub open spec fn is_tree_report(
    r: TreeReport,
    hunks_total: nat,
    head_tree: Seq<char>,
    built: Option<(Seq<char>, Seq<u8>)>,
) -> bool {
    &&& r.head_tree@ == head_tree
    &&& match built {
        Some((tree, patch)) => {
            &&& opt(r.built_tree) == Some(tree)
            &&& r.tree_ok == (tree == head_tree)
            &&& r.recount == header_count(split(patch, 10u8))
            &&& r.recount_ok == (header_count(split(patch, 10u8)) == hunks_total)
        },
        None => r.built_tree is None && !r.tree_ok && r.recount == 0 && !r.recount_ok,
    }
}

/// The tree assertion and the independent recount, computed from git's own output
/// over the built tree by a counter that is deliberately not the parser.
pub fn tree_report(hunks_total: usize, head_tree: String, built: Option<(String, Vec<u8>)>) -> (r:
    TreeReport)
    ensures
        is_tree_report(
            r,
            hunks_total as nat,
            head_tree@,
            match built {
                Some((tree, patch)) => Some((tree@, patch@)),
                None => None,
            },
        ),
{
    match built {
        Some((tree, patch)) => {
            let tree_ok = str_eq(&tree, &head_tree);
            let n = dumb_hunk_count(&patch);
            TreeReport {
                built_tree: Some(tree),
                head_tree,
                tree_ok,
                recount: n,
                recount_ok: n == hunks_total,
            }
        },
        None => TreeReport {
            built_tree: None,
            head_tree,
            tree_ok: false,
            recount: 0,
            recount_ok: false,
        },
    }
}

// ---------------------------------------------------------------------------
// The tree assertion

/// Whether an answer is the report on a tree that was built, with the recount of the
/// patch that git prints for it.
pub open spec fn is_recounted<G: RecountSource>(
    git: &G,
    base: Seq<char>,
    hunks_total: nat,
    head_tree: Seq<char>,
    tree: Seq<char>,
    r: Result<TreeReport, EngineError>,
) -> bool {
    exists|b: &str, t: &str, patch: Result<Vec<u8>, EngineError>|
        {
            &&& b@ == base
            &&& t@ == tree
            &&& #[trigger] call_ensures(G::recount_patch, (git, b, t), patch)
            &&& match patch {
                Err(e) => r == Err::<TreeReport, EngineError>(e),
                Ok(out) => r matches Ok(report) && is_tree_report(
                    report,
                    hunks_total,
                    head_tree,
                    Some((tree, out@)),
                ),
            }
        }
}

/// Whether an answer is the report on the tree that the hunks make.
pub open spec fn is_asserted<
    G: ObjectReader + ObjectWriter + TreeBuilder + RecountSource,
>(
    git: &G,
    base: Seq<char>,
    view: &DiffView,
    head_tree: Seq<char>,
    r: Result<TreeReport, EngineError>,
) -> bool {
    exists|built: Result<String, EngineError>|
        {
            &&& #[trigger] is_built_tree(git, base, view, built)
            &&& match built {
                Err(e) => r == Err::<TreeReport, EngineError>(e),
                Ok(tree) => is_recounted(git, base, view.hunks@.len(), head_tree, tree@, r),
            }
        }
}

/// Whether an answer is the report of the half that writes. On a broken applier no
/// tree is built, and the report passes nothing.
pub open spec fn is_tree_check<
    G: ObjectReader + ObjectWriter + TreeResolver + TreeBuilder + RecountSource,
>(
    git: &G,
    base: Seq<char>,
    head: Seq<char>,
    view: &DiffView,
    fidelity: InvariantReport,
    r: Result<TreeReport, EngineError>,
) -> bool {
    exists|h: &str, answer: Result<String, EngineError>|
        {
            &&& h@ == head
            &&& #[trigger] call_ensures(G::tree_of, (git, h), answer)
            &&& match answer {
                Err(e) => r == Err::<TreeReport, EngineError>(e),
                Ok(head_tree) => if applier_passed(fidelity) {
                    is_asserted(git, base, view, head_tree@, r)
                } else {
                    r matches Ok(report) && is_tree_report(
                        report,
                        view.hunks@.len(),
                        head_tree@,
                        None,
                    )
                },
            }
        }
}

/// The half that writes: the tree that the hunks make must be the head's, and git's
/// own patch to it must have as many hunks as the view.
pub fn check_tree<G: ObjectReader + ObjectWriter + TreeResolver + TreeBuilder + RecountSource>(
    git: &G,
    base: &str,
    head: &str,
    view: &DiffView,
    fidelity: &InvariantReport,
) -> (r: Result<TreeReport, EngineError>)
    ensures
        is_tree_check(git, base@, head@, view, *fidelity, r),
{
    let answer = git.tree_of(head);
    assert(call_ensures(G::tree_of, (git, head), answer));
    let head_tree = match answer {
        Ok(t) => t,
        Err(e) => {
            return Err(e);
        },
    };
    if !may_build_tree(fidelity) {
        return Ok(tree_report(view.hunks.len(), head_tree, None));
    }
    let built = build_tree(git, base, view);
    assert(is_built_tree(git, base@, view, built));
    let tree = match built {
        Ok(t) => t,
        Err(e) => {
            assert(is_asserted(git, base@, view, head_tree@, Err(e)));
            return Err(e);
        },
    };
    let ghost want = head_tree@;
    let t: &str = tree.as_str();
    let patch = git.recount_patch(base, t);
    assert(call_ensures(G::recount_patch, (git, base, t), patch));
    let r = match patch {
        Ok(out) => Ok(tree_report(view.hunks.len(), head_tree, Some((tree.clone(), out)))),
        Err(e) => Err(e),
    };
    assert(is_recounted(git, base@, view.hunks@.len(), want, tree@, r));
    assert(is_asserted(git, base@, view, want, r));
    r
}

/// Whether an answer is the report of both halves.
pub open spec fn is_checked<
    G: ObjectReader + ObjectWriter + TreeResolver + TreeBuilder + RecountSource,
>(
    git: &G,
    base: Seq<char>,
    head: Seq<char>,
    view: &DiffView,
    r: Result<InvariantReport, EngineError>,
) -> bool {
    ||| exists|contents: Seq<Contents>, fidelity: InvariantReport, tree: Result<TreeReport, EngineError>|
        {
            &&& contents.len() == view.files@.len()
            &&& #[trigger] is_fidelity(fidelity, view, contents)
            &&& all_read(git, base, head, view, contents, view.files@.len() as int)
            &&& #[trigger] is_tree_check(git, base, head, view, fidelity, tree)
            &&& match tree {
                Err(e) => r == Err::<InvariantReport, EngineError>(e),
                Ok(t) => r == Ok::<InvariantReport, EngineError>(
                    InvariantReport { tree: Some(t), ..fidelity },
                ),
            }
        }
    ||| exists|i: int|
        0 <= i < view.files@.len() && (r matches Err(e) && was_refused(
            git,
            base,
            head,
            view,
            #[trigger] view.files@[i],
            e,
        ))
}

/// All four checks, the read-only ones first.
pub fn check_all<G: ObjectReader + ObjectWriter + TreeResolver + TreeBuilder + RecountSource>(
    git: &G,
    base: &str,
    head: &str,
    view: &DiffView,
) -> (r: Result<InvariantReport, EngineError>)
    ensures
        is_checked(git, base@, head@, view, r),
{
    let mut report = match check_fidelity(git, base, head, view) {
        Ok(report) => report,
        Err(e) => {
            return Err(e);
        },
    };
    let ghost fidelity = report;
    let tree = check_tree(git, base, head, view, &report);
    assert(is_tree_check(git, base@, head@, view, fidelity, tree));
    match tree {
        Ok(t) => {
            report.tree = Some(t);
            Ok(report)
        },
        Err(e) => Err(e),
    }
}

/// Whether a line is a hunk header: it starts with `@@ -`.
pub open spec fn is_header(line: Seq<u8>) -> bool {
    occurs_at(line, seq![64u8, 64u8, 32u8, 45u8], 0)
}

/// The number of hunk headers.
pub open spec fn header_count(lines: Seq<Seq<u8>>) -> nat
    decreases lines.len(),
{
    if lines.len() == 0 {
        0
    } else {
        header_count(lines.drop_last()) + if is_header(lines.last()) {
            1nat
        } else {
            0nat
        }
    }
}

/// The deliberately dumb header counter. Must never share code with a parser of
/// patches: a shared bug would make the recount circular.
pub fn dumb_hunk_count(patch: &[u8]) -> (r: usize)
    ensures
        r == header_count(split(patch@, 10u8)),
{
    let lines = split_bytes(patch, 10u8);
    let ghost ls = views(lines@);
    let mut n: usize = 0;
    for i in 0..lines.len()
        invariant
            ls == views(lines@),
            n <= i,
            n == header_count(ls.take(i as int)),
    {
        let l = &lines[i];
        proof {
            assert(ls.take(i + 1).drop_last() =~= ls.take(i as int));
            assert(ls.take(i + 1).last() == l@);
            if l@.len() >= 4 {
                let s = l@.subrange(0, 4);
                assert(s[0] == l@[0] && s[1] == l@[1] && s[2] == l@[2] && s[3] == l@[3]);
                if l@[0] == 64 && l@[1] == 64 && l@[2] == 32 && l@[3] == 45 {
                    assert(s =~= seq![64u8, 64u8, 32u8, 45u8]);
                }
            }
        }
        if l.len() >= 4 && l[0] == 64 && l[1] == 64 && l[2] == 32 && l[3] == 45 {
            n = n + 1;
        }
    }
    assert(ls.take(ls.len() as int) =~= ls);
    n
}

/// Whether bytes are what the head holds of a file: nothing where it was deleted or is
/// not there.
pub open spec fn is_head(f: FileChange, head: Option<Vec<u8>>, bytes: Seq<u8>) -> bool {
    match head {
        Some(b) => if f.disposition == Disposition::Deleted {
            bytes.len() == 0
        } else {
            bytes == b@
        },
        None => bytes.len() == 0,
    }
}

/// A report is faithful exactly where every text file comes out of its base and its hunks
/// as the head has it, every file lists hunks of its own, none twice, and every hunk is
/// listed.
pub proof fn law_a_report_is_faithful_where_every_text_is_rebuilt(
    view: &DiffView,
    contents: &Vec<Contents>,
    r: InvariantReport,
    ok: bool,
    rebuilt_files: Seq<Vec<u8>>,
)
    requires
        call_ensures(fidelity_report, (view, contents), r),
        call_ensures(InvariantReport::fidelity_ok, (&r,), ok),
        contents@.len() == view.files@.len(),
        rebuilt_files.len() == view.files@.len(),
        forall|f: int|
            0 <= f < view.files@.len() && !view.files@[f].binary && view.files@[f].submodule
                is None ==> call_ensures(
                reconstruct,
                (view, &view.files@[f], &contents@[f].base),
                #[trigger] rebuilt_files[f],
            ),
    ensures
        ok <==> {
            &&& forall|f: int|
                0 <= f < view.files@.len() && !view.files@[f].binary && view.files@[f].submodule
                    is None ==> is_head(
                    view.files@[f],
                    contents@[f].head,
                    (#[trigger] rebuilt_files[f])@,
                )
            &&& forall|f: int, k: int|
                0 <= f < view.files@.len() && 0 <= k < view.files@[f].hunks@.len() ==> (
                #[trigger] view.files@[f].hunks@[k]) < view.hunks@.len()
                    && view.hunks@[view.files@[f].hunks@[k] as int].file == f
            &&& forall|f: int, k: int, l: int|
                0 <= f < view.files@.len() && 0 <= k < l < view.files@[f].hunks@.len()
                    ==> #[trigger] view.files@[f].hunks@[k] != #[trigger] view.files@[f].hunks@[l]
            &&& forall|h: int| 0 <= h < view.hunks@.len() ==> #[trigger] is_listed(view, h)
        },
{
    let n = view.files@.len();
    law_faithful_means_every_file_is_exact(view, contents@, n);
    assert(texts(r.applier_mismatches@).len() == r.applier_mismatches@.len());
    assert forall|f: int|
        0 <= f < n && !view.files@[f].binary && view.files@[f].submodule is None implies (is_head(
        view.files@[f],
        contents@[f].head,
        (#[trigger] rebuilt_files[f])@,
    ) <==> rebuilt(view, view.files@[f], contents@[f]) == wanted(
        view.files@[f],
        contents@[f],
    )) by {
        assert(rebuilt_files[f]@ == rebuilt(view, view.files@[f], contents@[f]));
        assert(wanted(view.files@[f], contents@[f]).len() == 0 && rebuilt_files[f]@.len() == 0
            ==> rebuilt_files[f]@ =~= wanted(view.files@[f], contents@[f]));
    }
    if ok {
        assert forall|f: int|
            0 <= f < n && !view.files@[f].binary && view.files@[f].submodule is None implies is_head(
            view.files@[f],
            contents@[f].head,
            (#[trigger] rebuilt_files[f])@,
        ) by {
            assert(is_text(view.files@[f]));
        }
        assert forall|f: int, k: int|
            0 <= f < n && 0 <= k < view.files@[f].hunks@.len() implies (
        #[trigger] view.files@[f].hunks@[k]) < view.hunks@.len()
            && view.hunks@[view.files@[f].hunks@[k] as int].file == f by {
            assert(owns_its_list(view, f));
        }
        assert forall|f: int, k: int, l: int|
            0 <= f < n && 0 <= k < l < view.files@[f].hunks@.len() implies #[trigger] view.files@[f].hunks@[k]
            != #[trigger] view.files@[f].hunks@[l] by {
            assert(owns_its_list(view, f));
        }
    }
    if (forall|f: int|
        0 <= f < n && !view.files@[f].binary && view.files@[f].submodule is None ==> is_head(
            view.files@[f],
            contents@[f].head,
            (#[trigger] rebuilt_files[f])@,
        )) {
        assert forall|f: int| 0 <= f < n && is_text(#[trigger] view.files@[f]) implies rebuilt(
            view,
            view.files@[f],
            contents@[f],
        ) == wanted(view.files@[f], contents@[f]) by {
            assert(is_head(view.files@[f], contents@[f].head, rebuilt_files[f]@));
        }
    }
}

/// A report counts the text files and the binary ones that are no submodules.
pub proof fn law_a_report_counts_its_files(
    view: &DiffView,
    contents: &Vec<Contents>,
    r: InvariantReport,
)
    requires
        call_ensures(fidelity_report, (view, contents), r),
    ensures
        r.files_total == view.files@.len(),
        r.hunks_total == view.hunks@.len(),
        r.applier_total == view.files@.filter(
            |f: FileChange| !f.binary && f.submodule is None,
        ).len(),
        r.binary_oid_checked == view.files@.filter(
            |f: FileChange| f.binary && f.submodule is None,
        ).len(),
{
    let files = view.files@;
    lemma_file_counts(view, files.len());
    assert(files.take(files.len() as int) =~= files);
}

proof fn lemma_file_counts(view: &DiffView, k: nat)
    requires
        k <= view.files@.len(),
    ensures
        text_count(view, k) == view.files@.take(k as int).filter(
            |f: FileChange| !f.binary && f.submodule is None,
        ).len(),
        binary_count(view, k) == view.files@.take(k as int).filter(
            |f: FileChange| f.binary && f.submodule is None,
        ).len(),
    decreases k,
{
    reveal(Seq::filter);
    if k > 0 {
        lemma_file_counts(view, (k - 1) as nat);
        let taken = view.files@.take(k as int);
        assert(taken.drop_last() =~= view.files@.take(k - 1));
        assert(taken.last() == view.files@[k - 1]);
    }
}

/// Everything passed exactly where no file differs, every hunk is accounted for, and the
/// tree was built, is the head's, and has as many hunks. A tree is only built where no
/// file differs.
pub proof fn law_everything_passed_means_both_halves(r: &InvariantReport, all: bool, may: bool)
    requires
        call_ensures(InvariantReport::all_ok, (r,), all),
        call_ensures(may_build_tree, (r,), may),
    ensures
        all <==> r.applier_mismatches@.len() == 0 && r.applier_ok == r.applier_total
            && r.accounting_ok && r.tree is Some && r.tree->0.tree_ok && r.tree->0.recount_ok,
        may <==> r.applier_mismatches@.len() == 0 && r.applier_ok == r.applier_total,
        all ==> may,
{
}

/// The tree is right where what was built is the head's tree, and the recount where the
/// lines of the patch that start with `@@ -` are as many as the hunks. What was not built
/// is neither.
pub proof fn law_the_recount_counts_the_headers(
    hunks_total: usize,
    head_tree: String,
    built: Option<(String, Vec<u8>)>,
    r: TreeReport,
)
    requires
        call_ensures(tree_report, (hunks_total, head_tree, built), r),
    ensures
        match built {
            Some((tree, patch)) => {
                &&& r.tree_ok <==> tree@ == head_tree@
                &&& r.recount == split(patch@, 10u8).filter(
                    |l: Seq<u8>| l.len() >= 4 && l.take(4) == seq![64u8, 64u8, 32u8, 45u8],
                ).len()
                &&& r.recount_ok <==> r.recount == hunks_total
            },
            None => !r.tree_ok && !r.recount_ok,
        },
{
    if let Some((tree, patch)) = built {
        lemma_headers(split(patch@, 10u8));
    }
}

proof fn lemma_headers(lines: Seq<Seq<u8>>)
    ensures
        header_count(lines) == lines.filter(
            |l: Seq<u8>| l.len() >= 4 && l.take(4) == seq![64u8, 64u8, 32u8, 45u8],
        ).len(),
    decreases lines.len(),
{
    reveal(Seq::filter);
    if lines.len() > 0 {
        lemma_headers(lines.drop_last());
        let l = lines.last();
        let mark = seq![64u8, 64u8, 32u8, 45u8];
        assert(l.len() >= 4 ==> l.take(4) =~= l.subrange(0, 4));
        assert(is_header(l) <==> l.len() >= 4 && l.take(4) == mark);
    }
}

} // verus!
