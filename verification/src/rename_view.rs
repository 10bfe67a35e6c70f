//! The rename-detected classification view.
//!
//! Two inputs, both plumbing:
//! - `diff-tree -r -z --raw --full-index --no-renames`: authoritative modes,
//!   full oids and status per canonical file.
//! - `diff-tree -r -M -z --name-status`: rename pairs with similarity scores.
//!
//! Both only annotate the canonical view; they never add or remove entries.
use vstd::prelude::*;
use vstd::string::*;

use crate::model::{DiffView, Disposition, FileChange};
use crate::plan::staging::opt;
use crate::seqs::{
    bytes_eq, copy_bytes, join, law_split_undoes_join, split, split_bytes, views,
};
use crate::text::{
    decimal, latin_text, latin_string, lossy, lossy_text, parse_unsigned, push_decimal, push_str,
    str_eq, unsigned_value,
};
use crate::EngineError;

verus! {

/// One record from `--raw -z --full-index --no-renames`.
#[derive(Debug, Clone)]
pub struct RawRecord {
    pub old_mode: String,
    pub new_mode: String,
    pub old_oid: String,
    pub new_oid: String,
    pub status: u8,
    pub path: Vec<u8>,
}

/// What a raw record says.
pub struct RawView {
    pub old_mode: Seq<char>,
    pub new_mode: Seq<char>,
    pub old_oid: Seq<char>,
    pub new_oid: Seq<char>,
    pub status: u8,
    pub path: Seq<u8>,
}

impl View for RawRecord {
    type V = RawView;

    open spec fn view(&self) -> RawView {
        RawView {
            old_mode: self.old_mode@,
            new_mode: self.new_mode@,
            old_oid: self.old_oid@,
            new_oid: self.new_oid@,
            status: self.status,
            path: self.path@,
        }
    }
}

pub open spec fn raw_views(records: Seq<RawRecord>) -> Seq<RawView> {
    records.map_values(|r: RawRecord| r@)
}

/// The disposition that a status letter stands for.
pub open spec fn disposition_of(status: u8) -> Disposition {
    if status == 65 {
        Disposition::Added
    } else if status == 68 {
        Disposition::Deleted
    } else {
        Disposition::Modified
    }
}

impl RawRecord {
    /// What happened to the file.
    pub fn disposition(&self) -> (r: Disposition)
        ensures
            r == disposition_of(self.status),
    {
        if self.status == 65 {
            Disposition::Added
        } else if self.status == 68 {
            Disposition::Deleted
        } else {
            Disposition::Modified
        }
    }
}

/// The object id that stands for no object.
pub const ZERO_OID: &'static str = "0000000000000000000000000000000000000000";

/// The mode that stands for no file.
pub const NO_MODE: &'static str = "000000";

/// The five parts of a record's head: what stands behind the colon, cut at
/// blanks.
pub open spec fn head_parts(meta: Seq<u8>) -> Seq<Seq<u8>> {
    split(meta.drop_first(), 32u8)
}

/// The record that a head and a path make.
pub open spec fn record_of(meta: Seq<u8>, path: Seq<u8>) -> RawView {
    let p = head_parts(meta);
    RawView {
        old_mode: lossy_text(p[0]),
        new_mode: lossy_text(p[1]),
        old_oid: lossy_text(p[2]),
        new_oid: lossy_text(p[3]),
        status: p[4][0],
        path,
    }
}

/// The records from field `from` on, or the bytes that are no record. Empty
/// fields between records are skipped.
pub open spec fn raw_from(fields: Seq<Seq<u8>>, from: int) -> Result<Seq<RawView>, Seq<u8>>
    decreases fields.len() - from,
{
    if from >= fields.len() {
        Ok(Seq::empty())
    } else {
        let meta = fields[from];
        if meta.len() == 0 {
            raw_from(fields, from + 1)
        } else if meta[0] != 58 {
            Err(meta)
        } else if head_parts(meta).len() != 5 || from + 1 >= fields.len() || head_parts(
            meta,
        )[4].len() == 0 {
            Err(meta.drop_first())
        } else {
            match raw_from(fields, from + 2) {
                Ok(rest) => Ok(seq![record_of(meta, fields[from + 1])] + rest),
                Err(e) => Err(e),
            }
        }
    }
}

/// Whether an error complains of a raw record.
pub open spec fn is_bad_record(e: EngineError, meta: Seq<u8>) -> bool {
    e matches EngineError::Parse { line, msg } && line == 0 && msg@
        == "unparseable raw diff record: "@ + lossy_text(meta)
}

fn bad(meta: &[u8]) -> (r: EngineError)
    ensures
        is_bad_record(r, meta@),
{
    let mut msg = String::new();
    push_str(&mut msg, "unparseable raw diff record: ");
    push_str(&mut msg, &lossy(meta));
    EngineError::Parse { line: 0, msg }
}

/// Parse `:100644 100755 <old> <new> M\0path\0` records.
pub fn parse_raw_z(raw: &[u8]) -> (r: Result<Vec<RawRecord>, EngineError>)
    ensures
        match (r, raw_from(split(raw@, 0u8), 0)) {
            (Ok(records), Ok(want)) => raw_views(records@) == want,
            (Err(e), Err(meta)) => is_bad_record(e, meta),
            _ => false,
        },
{
    let fields = split_bytes(raw, 0u8);
    let ghost fs = views(fields@);
    let mut out: Vec<RawRecord> = Vec::new();
    let mut i: usize = 0;
    proof {
        match raw_from(fs, 0) {
            Ok(rest) => {
                assert(raw_views(out@) + rest =~= rest);
            },
            Err(_) => {},
        }
    }
    while i < fields.len()
        invariant
            fs == views(fields@),
            fs == split(raw@, 0u8),
            i <= fields@.len(),
            raw_from(fs, 0) == (match raw_from(fs, i as int) {
                Ok(rest) => Ok::<Seq<RawView>, Seq<u8>>(raw_views(out@) + rest),
                Err(e) => Err(e),
            }),
        decreases fields@.len() - i,
    {
        let meta = &fields[i];
        assert(fs[i as int] == meta@);
        if meta.len() == 0 {
            i = i + 1;
            continue;
        }
        if meta[0] != 58 {
            return Err(bad(meta.as_slice()));
        }
        let head = vstd::slice::slice_subrange(meta.as_slice(), 1, meta.len());
        assert(head@ =~= meta@.drop_first());
        let parts = split_bytes(head, 32u8);
        let ghost ps = views(parts@);
        assert(ps == head_parts(meta@));
        if parts.len() != 5 || i + 1 >= fields.len() || parts[4].len() == 0 {
            assert(parts@.len() == ps.len());
            assert(parts@.len() == 5 ==> ps[4] == parts@[4]@);
            return Err(bad(head));
        }
        let rec = RawRecord {
            old_mode: lossy(&parts[0]),
            new_mode: lossy(&parts[1]),
            old_oid: lossy(&parts[2]),
            new_oid: lossy(&parts[3]),
            status: parts[4][0],
            path: copy_bytes(&fields[i + 1]),
        };
        let ghost had = raw_views(out@);
        let ghost one = rec@;
        proof {
            assert(ps[0] == parts@[0]@ && ps[1] == parts@[1]@ && ps[2] == parts@[2]@ && ps[3]
                == parts@[3]@ && ps[4] == parts@[4]@);
            assert(fs[i + 1] == fields@[i + 1]@);
            assert(one == record_of(meta@, fs[i + 1]));
        }
        out.push(rec);
        proof {
            assert(raw_views(out@) =~= had.push(one));
            match raw_from(fs, i + 2) {
                Ok(rest) => {
                    assert(had + (seq![one] + rest) =~= had.push(one) + rest);
                },
                Err(_) => {},
            }
        }
        if i + 2 >= fields.len() {
            assert(raw_views(out@) + Seq::<RawView>::empty() =~= raw_views(out@));
            return Ok(out);
        }
        i = i + 2;
    }
    assert(raw_views(out@) + Seq::<RawView>::empty() =~= raw_views(out@));
    Ok(out)
}

/// The last record of a path.
pub open spec fn record_for(records: Seq<RawRecord>, path: Seq<u8>) -> Option<RawRecord>
    decreases records.len(),
{
    if records.len() == 0 {
        None
    } else if records.last().path@ == path {
        Some(records.last())
    } else {
        record_for(records.drop_last(), path)
    }
}

/// A mode, unless it stands for no file.
pub open spec fn mode_of(m: Seq<char>) -> Option<Seq<char>> {
    if m == NO_MODE@ {
        None
    } else {
        Some(m)
    }
}

/// An object id, unless it stands for no object.
pub open spec fn oid_of(o: Seq<char>) -> Option<Seq<char>> {
    if o == ZERO_OID@ {
        None
    } else {
        Some(o)
    }
}

/// The old mode to record: the raw one where there is one, dropped where it did
/// not change, and always the raw one for a deletion.
pub open spec fn old_mode_of(had: Option<Seq<char>>, r: RawRecord) -> Option<Seq<char>> {
    let old = if mode_of(r.old_mode@) is Some {
        mode_of(r.old_mode@)
    } else {
        had
    };
    if disposition_of(r.status) == Disposition::Deleted {
        Some(r.old_mode@)
    } else if old == mode_of(r.new_mode@) {
        None
    } else {
        old
    }
}

/// Whether `new` is `old` with the modes, ids and disposition of a record, and
/// everything else as it was.
pub open spec fn overlaid(new: FileChange, old: FileChange, r: RawRecord) -> bool {
    &&& new.disposition == disposition_of(r.status)
    &&& opt(new.new_mode) == mode_of(r.new_mode@)
    &&& opt(new.old_mode) == old_mode_of(opt(old.old_mode), r)
    &&& opt(new.old_oid) == oid_of(r.old_oid@)
    &&& opt(new.new_oid) == oid_of(r.new_oid@)
    &&& new.path == old.path
    &&& new.binary == old.binary
    &&& new.submodule == old.submodule
    &&& new.hunks == old.hunks
    &&& new.rename_similarity == old.rename_similarity
    &&& new.rename_from == old.rename_from
    &&& new.rename_to == old.rename_to
    &&& new.generated == old.generated
}

/// What is said of a file that has no raw record.
pub open spec fn no_record(path: Seq<u8>) -> Seq<char> {
    "file "@ + lossy_text(path) + " present in patch but missing from raw records"@
}

/// What is said where the two enumerations count differently.
pub open spec fn enumeration_hole(files: nat, records: nat) -> Seq<char> {
    "patch has "@ + decimal(files) + " files but raw listing has "@ + decimal(records)
        + " — enumeration hole"@
}

fn find_record(records: &[RawRecord], path: &[u8]) -> (r: Option<usize>)
    ensures
        match r {
            Some(i) => i < records@.len() && record_for(records@, path@) == Some(
                records@[i as int],
            ),
            None => record_for(records@, path@) is None,
        },
{
    let mut i: usize = records.len();
    assert(records@.take(i as int) =~= records@);
    while i > 0
        invariant
            i <= records@.len(),
            record_for(records@, path@) == record_for(records@.take(i as int), path@),
        decreases i,
    {
        assert(records@.take(i as int).drop_last() =~= records@.take(i - 1));
        if bytes_eq(&records[i - 1].path, path) {
            return Some(i - 1);
        }
        i = i - 1;
    }
    None
}

fn real_mode(m: &String) -> (r: Option<String>)
    ensures
        opt(r) == mode_of(m@),
{
    if str_eq(m, NO_MODE) {
        None
    } else {
        Some(m.clone())
    }
}

fn real_oid(o: &String) -> (r: Option<String>)
    ensures
        opt(r) == oid_of(o@),
{
    if str_eq(o, ZERO_OID) {
        None
    } else {
        Some(o.clone())
    }
}

fn same_opt(a: &Option<String>, b: &Option<String>) -> (r: bool)
    ensures
        r == (opt(*a) == opt(*b)),
{
    match (a, b) {
        (Some(x), Some(y)) => str_eq(x, y),
        (None, None) => true,
        _ => false,
    }
}

fn overlay(f: &mut FileChange, r: &RawRecord)
    ensures
        overlaid(*final(f), *old(f), *r),
{
    f.disposition = r.disposition();
    let raw_old = real_mode(&r.old_mode);
    if raw_old.is_some() {
        f.old_mode = raw_old;
    }
    f.new_mode = real_mode(&r.new_mode);
    if same_opt(&f.old_mode, &f.new_mode) {
        f.old_mode = None;
    }
    if f.disposition == Disposition::Deleted {
        f.old_mode = Some(r.old_mode.clone());
    }
    f.old_oid = real_oid(&r.old_oid);
    f.new_oid = real_oid(&r.new_oid);
}

/// Whether two files differ at most in what a raw record tells: the disposition, the
/// modes and the ids.
pub open spec fn same_but_record(new: FileChange, old: FileChange) -> bool {
    &&& new.path == old.path
    &&& new.hunks == old.hunks
    &&& new.binary == old.binary
    &&& new.submodule == old.submodule
    &&& new.generated == old.generated
    &&& new.rename_similarity == old.rename_similarity
    &&& new.rename_from == old.rename_from
    &&& new.rename_to == old.rename_to
}

/// Overlay authoritative modes, ids and dispositions onto the parsed canonical
/// view. No file and no hunk is added or removed, whatever the outcome; a file
/// without a record, or a different number of records, is an enumeration hole.
pub fn merge_raw(view: &mut DiffView, records: &[RawRecord]) -> (r: Result<(), EngineError>)
    ensures
        final(view).hunks == old(view).hunks,
        final(view).files@.len() == old(view).files@.len(),
        forall|i: int|
            0 <= i < old(view).files@.len() ==> same_but_record(
                #[trigger] final(view).files@[i],
                old(view).files@[i],
            ),
        r is Ok <==> old(view).files@.len() == records@.len() && forall|i: int|
            0 <= i < old(view).files@.len() ==> record_for(
                records@,
                (#[trigger] old(view).files@[i]).path@,
            ) is Some,
        r is Ok ==> forall|i: int|
            0 <= i < old(view).files@.len() ==> (record_for(
                records@,
                old(view).files@[i].path@,
            ) matches Some(rec) && overlaid(
                #[trigger] final(view).files@[i],
                old(view).files@[i],
                rec,
            )),
        r matches Err(e) ==> (e matches EngineError::Invariant(msg) && ({
            ||| exists|k: int|
                0 <= k < old(view).files@.len() && record_for(
                    records@,
                    (#[trigger] old(view).files@[k]).path@,
                ) is None && msg@ == no_record(old(view).files@[k].path@) && forall|j: int|
                    0 <= j < k ==> record_for(
                        records@,
                        (#[trigger] old(view).files@[j]).path@,
                    ) is Some
            ||| (forall|j: int|
                0 <= j < old(view).files@.len() ==> record_for(
                    records@,
                    (#[trigger] old(view).files@[j]).path@,
                ) is Some) && msg@ == enumeration_hole(
                old(view).files@.len(),
                records@.len(),
            )
        })),
{
    let ghost was = view.files@;
    let n = view.files.len();
    for i in 0..n
        invariant
            n == was.len(),
            view.hunks == old(view).hunks,
            was == old(view).files@,
            view.files@.len() == was.len(),
            forall|k: int|
                0 <= k < was.len() ==> same_but_record(#[trigger] view.files@[k], was[k]),
            forall|k: int|
                0 <= k < i ==> (record_for(records@, was[k].path@) matches Some(rec) && overlaid(
                    #[trigger] view.files@[k],
                    was[k],
                    rec,
                )),
            forall|k: int|
                0 <= k < i ==> record_for(records@, (#[trigger] was[k]).path@) is Some,
            forall|k: int| i <= k < was.len() ==> view.files@[k] == was[k],
    {
        match find_record(records, &view.files[i].path) {
            Some(k) => {
                let ghost before = view.files@;
                overlay(&mut view.files[i], &records[k]);
                assert(forall|j: int| 0 <= j < was.len() && j != i ==> view.files@[j] == before[j]);
            },
            None => {
                let mut msg = String::new();
                push_str(&mut msg, "file ");
                push_str(&mut msg, &lossy(&view.files[i].path));
                push_str(&mut msg, " present in patch but missing from raw records");
                assert(msg@ =~= no_record(was[i as int].path@));
                return Err(EngineError::Invariant(msg));
            },
        }
    }
    if view.files.len() != records.len() {
        let mut msg = String::new();
        push_str(&mut msg, "patch has ");
        push_decimal(&mut msg, view.files.len() as u64);
        push_str(&mut msg, " files but raw listing has ");
        push_decimal(&mut msg, records.len() as u64);
        push_str(&mut msg, " — enumeration hole");
        assert(msg@ =~= enumeration_hole(was.len(), records@.len()));
        return Err(EngineError::Invariant(msg));
    }
    Ok(())
}

/// One rename pair from the `-M` view.
#[derive(Debug, Clone, PartialEq)]
pub struct RenamePair {
    pub old_path: Vec<u8>,
    pub new_path: Vec<u8>,
    /// 0-100.
    pub similarity: u8,
}

/// What a rename pair says.
pub struct PairView {
    pub old_path: Seq<u8>,
    pub new_path: Seq<u8>,
    pub similarity: u8,
}

impl View for RenamePair {
    type V = PairView;

    open spec fn view(&self) -> PairView {
        PairView {
            old_path: self.old_path@,
            new_path: self.new_path@,
            similarity: self.similarity,
        }
    }
}

pub open spec fn pair_views(pairs: Seq<RenamePair>) -> Seq<PairView> {
    pairs.map_values(|p: RenamePair| p@)
}

/// Why a rename listing cannot be read.
pub enum RenameFault {
    /// The score behind the status letter is no number up to 255.
    Score(Seq<u8>),
    /// The listing ends where a path should stand.
    Path,
}

/// The similarity score behind a status letter.
pub open spec fn score_of(status: Seq<u8>) -> Option<nat> {
    unsigned_value(latin_text(status.drop_first()), 255)
}

/// The pairs from field `from` on: those of the renames. A copy carries a score and
/// two paths as a rename does and is no pair; every other status carries one path.
/// Empty fields are skipped.
pub open spec fn renames_from(fields: Seq<Seq<u8>>, from: int) -> Result<Seq<PairView>, RenameFault>
    decreases fields.len() - from,
{
    if from >= fields.len() {
        Ok(Seq::empty())
    } else {
        let status = fields[from];
        if status.len() == 0 {
            renames_from(fields, from + 1)
        } else if status[0] == 82 || status[0] == 67 {
            match score_of(status) {
                None => Err(RenameFault::Score(status)),
                Some(score) => if from + 2 >= fields.len() {
                    Err(RenameFault::Path)
                } else {
                    match renames_from(fields, from + 3) {
                        Ok(rest) => if status[0] == 82 {
                            Ok(
                                seq![
                                    PairView {
                                        old_path: fields[from + 1],
                                        new_path: fields[from + 2],
                                        similarity: score as u8,
                                    },
                                ] + rest,
                            )
                        } else {
                            Ok(rest)
                        },
                        Err(e) => Err(e),
                    }
                },
            }
        } else if from + 1 >= fields.len() {
            Err(RenameFault::Path)
        } else {
            renames_from(fields, from + 2)
        }
    }
}

/// Whether an error reports a fault of a rename listing.
pub open spec fn is_rename_error(e: EngineError, fault: RenameFault) -> bool {
    e matches EngineError::Parse { line, msg } && line == 0 && match fault {
        RenameFault::Score(status) => msg@ == "unparseable rename score: "@ + lossy_text(status),
        RenameFault::Path => msg@ == "rename record missing path"@,
    }
}

fn missing() -> (r: EngineError)
    ensures
        is_rename_error(r, RenameFault::Path),
{
    EngineError::Parse { line: 0, msg: "rename record missing path".to_owned() }
}

/// Parse `-M -z --name-status` output, keeping only `R<score>` records.
pub fn parse_renames_z(raw: &[u8]) -> (r: Result<Vec<RenamePair>, EngineError>)
    ensures
        match (r, renames_from(split(raw@, 0u8), 0)) {
            (Ok(pairs), Ok(want)) => pair_views(pairs@) == want,
            (Err(e), Err(fault)) => is_rename_error(e, fault),
            _ => false,
        },
{
    let fields = split_bytes(raw, 0u8);
    let ghost fs = views(fields@);
    let mut out: Vec<RenamePair> = Vec::new();
    let mut i: usize = 0;
    proof {
        match renames_from(fs, 0) {
            Ok(rest) => {
                assert(pair_views(out@) + rest =~= rest);
            },
            Err(_) => {},
        }
    }
    while i < fields.len()
        invariant
            fs == views(fields@),
            fs == split(raw@, 0u8),
            i <= fields@.len(),
            renames_from(fs, 0) == (match renames_from(fs, i as int) {
                Ok(rest) => Ok::<Seq<PairView>, RenameFault>(pair_views(out@) + rest),
                Err(e) => Err(e),
            }),
        decreases fields@.len() - i,
    {
        let status = &fields[i];
        assert(fs[i as int] == status@);
        let left: usize = fields.len() - i;
        if status.len() == 0 {
            i = i + 1;
        } else if status[0] == 82 || status[0] == 67 {
            let tail = vstd::slice::slice_subrange(status.as_slice(), 1, status.len());
            assert(tail@ =~= status@.drop_first());
            let score: u8 = match parse_unsigned(&latin_string(tail), 255) {
                Some(n) => n as u8,
                None => {
                    let mut msg = String::new();
                    push_str(&mut msg, "unparseable rename score: ");
                    push_str(&mut msg, &lossy(status));
                    return Err(EngineError::Parse { line: 0, msg });
                },
            };
            if left <= 2 {
                return Err(missing());
            }
            if status[0] == 82 {
                let pair = RenamePair {
                    old_path: copy_bytes(&fields[i + 1]),
                    new_path: copy_bytes(&fields[i + 2]),
                    similarity: score,
                };
                let ghost had = pair_views(out@);
                let ghost one = pair@;
                proof {
                    assert(fs[i + 1] == fields@[i + 1]@ && fs[i + 2] == fields@[i + 2]@);
                }
                out.push(pair);
                proof {
                    assert(pair_views(out@) =~= had.push(one));
                    match renames_from(fs, i + 3) {
                        Ok(rest) => {
                            assert(had + (seq![one] + rest) =~= had.push(one) + rest);
                        },
                        Err(_) => {},
                    }
                }
            }
            i = i + 3;
        } else {
            if left <= 1 {
                return Err(missing());
            }
            i = i + 2;
        }
    }
    assert(pair_views(out@) + Seq::<PairView>::empty() =~= pair_views(out@));
    Ok(out)
}

pub open spec fn opt_bytes(o: Option<Vec<u8>>) -> Option<Seq<u8>> {
    match o {
        Some(v) => Some(v@),
        None => None,
    }
}

/// What rename pairs say of a file: where it came from, where it went, how
/// similar. The last pair that matches counts.
pub struct Renamed {
    pub from: Option<Seq<u8>>,
    pub to: Option<Seq<u8>>,
    pub similarity: Option<u8>,
}

pub open spec fn renamed(f: FileChange, pairs: Seq<RenamePair>) -> Renamed
    decreases pairs.len(),
{
    if pairs.len() == 0 {
        Renamed {
            from: opt_bytes(f.rename_from),
            to: opt_bytes(f.rename_to),
            similarity: f.rename_similarity,
        }
    } else {
        let before = renamed(f, pairs.drop_last());
        let p = pairs.last();
        if f.disposition == Disposition::Added && f.path@ == p.new_path@ {
            Renamed { from: Some(p.old_path@), similarity: Some(p.similarity), ..before }
        } else if f.disposition == Disposition::Deleted && f.path@ == p.old_path@ {
            Renamed { to: Some(p.new_path@), similarity: Some(p.similarity), ..before }
        } else {
            before
        }
    }
}

/// Whether `new` is `old` with the annotations of rename pairs, and everything
/// else as it was.
pub open spec fn annotated(new: FileChange, old: FileChange, pairs: Seq<RenamePair>) -> bool {
    let r = renamed(old, pairs);
    &&& opt_bytes(new.rename_from) == r.from
    &&& opt_bytes(new.rename_to) == r.to
    &&& new.rename_similarity == r.similarity
    &&& new.path == old.path
    &&& new.disposition == old.disposition
    &&& new.new_mode == old.new_mode
    &&& new.old_mode == old.old_mode
    &&& new.binary == old.binary
    &&& new.submodule == old.submodule
    &&& new.old_oid == old.old_oid
    &&& new.new_oid == old.new_oid
    &&& new.hunks == old.hunks
    &&& new.generated == old.generated
}

fn annotate(f: &mut FileChange, pairs: &[RenamePair])
    ensures
        annotated(*final(f), *old(f), pairs@),
{
    let ghost was = *f;
    assert(pairs@.take(0) =~= Seq::<RenamePair>::empty());
    for i in 0..pairs.len()
        invariant
            was == *old(f),
            annotated(*f, was, pairs@.take(i as int)),
    {
        let p = &pairs[i];
        proof {
            assert(pairs@.take(i + 1).drop_last() =~= pairs@.take(i as int));
            assert(pairs@.take(i + 1).last() == *p);
        }
        if f.disposition == Disposition::Added && bytes_eq(&f.path, &p.new_path) {
            f.rename_from = Some(copy_bytes(&p.old_path));
            f.rename_similarity = Some(p.similarity);
        } else if f.disposition == Disposition::Deleted && bytes_eq(&f.path, &p.old_path) {
            f.rename_to = Some(copy_bytes(&p.new_path));
            f.rename_similarity = Some(p.similarity);
        }
    }
    assert(pairs@.take(pairs@.len() as int) =~= pairs@);
}

/// Annotate both halves of each detected rename in the canonical view. No file
/// and no hunk is added or removed.
pub fn merge_renames(view: &mut DiffView, pairs: &[RenamePair])
    ensures
        final(view).hunks == old(view).hunks,
        final(view).files@.len() == old(view).files@.len(),
        forall|i: int|
            0 <= i < old(view).files@.len() ==> annotated(
                #[trigger] final(view).files@[i],
                old(view).files@[i],
                pairs@,
            ),
{
    let ghost was = view.files@;
    let n = view.files.len();
    for i in 0..n
        invariant
            n == was.len(),
            view.hunks == old(view).hunks,
            was == old(view).files@,
            view.files@.len() == was.len(),
            forall|k: int| 0 <= k < i ==> annotated(#[trigger] view.files@[k], was[k], pairs@),
            forall|k: int| i <= k < was.len() ==> view.files@[k] == was[k],
    {
        let ghost before = view.files@;
        annotate(&mut view.files[i], pairs);
        assert(forall|j: int| 0 <= j < was.len() && j != i ==> view.files@[j] == before[j]);
    }
}

/// Whether a pair names a file as the side that it is on: the new one of an added file,
/// the old one of a deleted file.
pub open spec fn is_half(f: FileChange, p: RenamePair) -> bool {
    (f.disposition == Disposition::Added && p.new_path@ == f.path@) || (f.disposition
        == Disposition::Deleted && p.old_path@ == f.path@)
}

/// Of the pairs that name a file the last one counts, and where none does nothing is
/// said of the file.
proof fn lemma_last_half(f: FileChange, pairs: Seq<RenamePair>, i: int)
    requires
        f.rename_from is None,
        f.rename_to is None,
        f.rename_similarity is None,
        -1 <= i < pairs.len(),
        i >= 0 ==> is_half(f, pairs[i]),
        forall|j: int| i < j < pairs.len() ==> !is_half(f, #[trigger] pairs[j]),
    ensures
        renamed(f, pairs).similarity == if i >= 0 {
            Some(pairs[i].similarity)
        } else {
            None
        },
        renamed(f, pairs).from == if i >= 0 && f.disposition == Disposition::Added {
            Some(pairs[i].old_path@)
        } else {
            None
        },
        renamed(f, pairs).to == if i >= 0 && f.disposition == Disposition::Deleted {
            Some(pairs[i].new_path@)
        } else {
            None
        },
    decreases pairs.len(),
{
    if pairs.len() > 0 {
        let fewer = pairs.drop_last();
        assert(forall|j: int| 0 <= j < fewer.len() ==> #[trigger] fewer[j] == pairs[j]);
        if i == pairs.len() - 1 {
            lemma_sides(f, fewer);
        } else {
            assert(!is_half(f, pairs[pairs.len() - 1]));
            assert forall|j: int| i < j < fewer.len() implies !is_half(f, #[trigger] fewer[j]) by {
                assert(fewer[j] == pairs[j]);
            }
            lemma_last_half(f, fewer, i);
        }
    }
}

/// An added file only ever came from somewhere, and a deleted one only went.
proof fn lemma_sides(f: FileChange, pairs: Seq<RenamePair>)
    requires
        f.rename_from is None,
        f.rename_to is None,
    ensures
        f.disposition != Disposition::Added ==> renamed(f, pairs).from is None,
        f.disposition != Disposition::Deleted ==> renamed(f, pairs).to is None,
    decreases pairs.len(),
{
    if pairs.len() > 0 {
        lemma_sides(f, pairs.drop_last());
    }
}

/// An added file that is the new side of a pair came from its old side, a deleted file
/// that is the old side went to its new side, as similar as the pair says. No other file
/// is said to be renamed.
pub proof fn law_a_rename_joins_its_two_halves(
    new: FileChange,
    old: FileChange,
    pairs: Seq<RenamePair>,
    i: int,
)
    requires
        annotated(new, old, pairs),
        old.rename_from is None,
        old.rename_to is None,
        old.rename_similarity is None,
    ensures
        0 <= i < pairs.len() && is_half(old, pairs[i]) && (forall|j: int|
            i < j < pairs.len() ==> !is_half(old, #[trigger] pairs[j])) ==> {
            &&& new.rename_similarity == Some(pairs[i].similarity)
            &&& old.disposition == Disposition::Added ==> new.rename_to is None && (new.rename_from
                matches Some(p) && p@ == pairs[i].old_path@)
            &&& old.disposition == Disposition::Deleted ==> new.rename_from is None && (
            new.rename_to matches Some(p) && p@ == pairs[i].new_path@)
        },
        (forall|j: int| 0 <= j < pairs.len() ==> !is_half(old, #[trigger] pairs[j])) ==> {
            &&& new.rename_similarity is None
            &&& new.rename_from is None
            &&& new.rename_to is None
        },
        new.path == old.path,
        new.hunks == old.hunks,
        new.disposition == old.disposition,
{
    if 0 <= i < pairs.len() && is_half(old, pairs[i]) && (forall|j: int|
        i < j < pairs.len() ==> !is_half(old, #[trigger] pairs[j])) {
        lemma_last_half(old, pairs, i);
    }
    if forall|j: int| 0 <= j < pairs.len() ==> !is_half(old, #[trigger] pairs[j]) {
        lemma_last_half(old, pairs, -1);
    }
}

/// A record decides what happened to its file: `A` is an addition, `D` a deletion, every
/// other letter a change. A mode of zeros is no mode and an id of zeros no object. The
/// old mode is kept where it differs from the new one, and of a deletion always.
pub proof fn law_a_record_decides_modes_and_ids(new: FileChange, old: FileChange, r: RawRecord)
    requires
        overlaid(new, old, r),
    ensures
        new.disposition == Disposition::Added <==> r.status as char == 'A',
        new.disposition == Disposition::Deleted <==> r.status as char == 'D',
        new.new_mode is None <==> r.new_mode@ == "000000"@,
        new.new_mode matches Some(m) ==> m@ == r.new_mode@,
        new.old_oid is None <==> r.old_oid@ == "0000000000000000000000000000000000000000"@,
        new.old_oid matches Some(o) ==> o@ == r.old_oid@,
        new.new_oid is None <==> r.new_oid@ == "0000000000000000000000000000000000000000"@,
        new.new_oid matches Some(o) ==> o@ == r.new_oid@,
        r.status as char == 'D' ==> (new.old_mode matches Some(m) && m@ == r.old_mode@),
        r.status as char != 'D' && r.old_mode@ != "000000"@ ==> (new.old_mode is None <==> r.old_mode@
            == r.new_mode@) && (new.old_mode matches Some(m) ==> m@ == r.old_mode@),
{
}

/// The bytes of one raw record: the five parts of its head behind a colon, with blanks
/// between, and the path, each ended by a zero byte.
pub open spec fn raw_record(head: Seq<Seq<u8>>, path: Seq<u8>) -> Seq<Seq<u8>> {
    seq![seq![58u8] + join(head, 32u8), path]
}

/// The fields of raw records, with the empty one behind the last zero byte.
pub open spec fn raw_fields(heads: Seq<Seq<Seq<u8>>>, paths: Seq<Seq<u8>>) -> Seq<Seq<u8>>
    decreases heads.len(),
{
    if heads.len() == 0 {
        seq![Seq::<u8>::empty()]
    } else {
        raw_record(heads[0], paths[0]) + raw_fields(heads.drop_first(), paths.drop_first())
    }
}

/// Whether records can be told apart in a listing: no part of a head holds a blank or a
/// zero byte, none of the paths a zero byte, and every status has a letter.
pub open spec fn listable(heads: Seq<Seq<Seq<u8>>>, paths: Seq<Seq<u8>>) -> bool {
    &&& heads.len() == paths.len()
    &&& forall|i: int|
        0 <= i < heads.len() ==> (#[trigger] heads[i]).len() == 5 && heads[i][4].len() > 0
    &&& forall|i: int, k: int|
        0 <= i < heads.len() && 0 <= k < 5 ==> !(#[trigger] heads[i][k]).contains(32u8)
            && !heads[i][k].contains(0u8)
    &&& forall|i: int| 0 <= i < paths.len() ==> !(#[trigger] paths[i]).contains(0u8)
}

/// Parts without a byte, joined by another one, are without it.
pub proof fn lemma_join_without(parts: Seq<Seq<u8>>, sep: u8, b: u8)
    requires
        sep != b,
        forall|k: int| 0 <= k < parts.len() ==> !(#[trigger] parts[k]).contains(b),
    ensures
        !join(parts, sep).contains(b),
    decreases parts.len(),
{
    let all = join(parts, sep);
    if parts.len() == 1 {
        assert(!parts[0].contains(b));
    } else if parts.len() > 1 {
        let fewer = parts.drop_last();
        assert(forall|k: int| 0 <= k < fewer.len() ==> #[trigger] fewer[k] == parts[k]);
        lemma_join_without(fewer, sep, b);
        assert(!parts[parts.len() - 1].contains(b));
        let before = join(fewer, sep);
        assert(all == before.push(sep) + parts.last());
        if all.contains(b) {
            let i = choose|i: int| 0 <= i < all.len() && all[i] == b;
            if i < before.len() {
                assert(before[i] == b);
            } else if i > before.len() {
                assert(parts.last()[i - before.len() - 1] == b);
            }
        }
    }
}

/// No field of a listing holds a zero byte.
proof fn lemma_raw_fields(heads: Seq<Seq<Seq<u8>>>, paths: Seq<Seq<u8>>)
    requires
        listable(heads, paths),
    ensures
        raw_fields(heads, paths).len() == 2 * heads.len() + 1,
        forall|k: int|
            0 <= k < raw_fields(heads, paths).len() ==> !(#[trigger] raw_fields(heads, paths)[k]).contains(
            0u8,
        ),
        raw_from(raw_fields(heads, paths), 0) matches Ok(rs) && rs.len() == heads.len()
            && forall|i: int|
            0 <= i < rs.len() ==> #[trigger] rs[i] == (RawView {
                old_mode: lossy_text(heads[i][0]),
                new_mode: lossy_text(heads[i][1]),
                old_oid: lossy_text(heads[i][2]),
                new_oid: lossy_text(heads[i][3]),
                status: heads[i][4][0],
                path: paths[i],
            }),
    decreases heads.len(),
{
    let all = raw_fields(heads, paths);
    if heads.len() == 0 {
        reveal_with_fuel(raw_from, 3);
        assert(all[0] =~= Seq::<u8>::empty());
    } else {
        let (hs, ps) = (heads.drop_first(), paths.drop_first());
        assert forall|i: int| 0 <= i < hs.len() implies (#[trigger] hs[i]).len() == 5
            && hs[i][4].len() > 0 by {
            assert(hs[i] == heads[i + 1]);
        }
        assert forall|i: int, k: int| 0 <= i < hs.len() && 0 <= k < 5 implies !(
        #[trigger] hs[i][k]).contains(32u8) && !hs[i][k].contains(0u8) by {
            assert(hs[i][k] == heads[i + 1][k]);
        }
        assert forall|i: int| 0 <= i < ps.len() implies !(#[trigger] ps[i]).contains(0u8) by {
            assert(ps[i] == paths[i + 1]);
        }
        lemma_raw_fields(hs, ps);
        let rest = raw_fields(hs, ps);
        let head = heads[0];
        let line = join(head, 32u8);
        let meta = seq![58u8] + line;
        assert(heads[0].len() == 5);
        assert(forall|k: int| 0 <= k < 5 ==> !(#[trigger] head[k]).contains(0u8));
        assert(forall|k: int| 0 <= k < 5 ==> !(#[trigger] head[k]).contains(32u8));
        lemma_join_without(head, 32u8, 0u8);
        law_split_undoes_join(head, 32u8);
        assert(meta.drop_first() =~= line);
        assert(all =~= seq![meta, paths[0]] + rest);
        assert(all[0] == meta && all[1] == paths[0]);
        assert(!meta.contains(0u8)) by {
            if meta.contains(0u8) {
                let i = choose|i: int| 0 <= i < meta.len() && meta[i] == 0u8;
                assert(line[i - 1] == 0u8);
            }
        }
        assert forall|k: int| 0 <= k < all.len() implies !(#[trigger] all[k]).contains(0u8) by {
            if k >= 2 {
                assert(all[k] == rest[k - 2]);
            } else if k == 1 {
                assert(!paths[0].contains(0u8));
            }
        }
        lemma_raw_shift(all, rest, 0);
        assert(head_parts(meta) == head);
        assert(heads[0][4].len() > 0);
        let rs = raw_from(rest, 0)->Ok_0;
        let got = seq![record_of(meta, paths[0])] + rs;
        assert(raw_from(all, 0) == Ok::<Seq<RawView>, Seq<u8>>(got));
        assert forall|i: int| 0 <= i < got.len() implies #[trigger] got[i] == (RawView {
            old_mode: lossy_text(heads[i][0]),
            new_mode: lossy_text(heads[i][1]),
            old_oid: lossy_text(heads[i][2]),
            new_oid: lossy_text(heads[i][3]),
            status: heads[i][4][0],
            path: paths[i],
        }) by {
            if i > 0 {
                assert(got[i] == rs[i - 1]);
                assert(hs[i - 1] == heads[i]);
                assert(ps[i - 1] == paths[i]);
            }
        }
    }
}

/// Two fields in front move the reading by two.
proof fn lemma_raw_shift(all: Seq<Seq<u8>>, rest: Seq<Seq<u8>>, from: int)
    requires
        all.len() == rest.len() + 2,
        forall|k: int| 0 <= k < rest.len() ==> #[trigger] rest[k] == all[k + 2],
        0 <= from,
    ensures
        raw_from(all, from + 2) == raw_from(rest, from),
    decreases rest.len() - from,
{
    if from < rest.len() {
        assert(rest[from] == all[from + 2]);
        if from + 1 < rest.len() {
            assert(rest[from + 1] == all[from + 3]);
        }
        lemma_raw_shift(all, rest, from + 1);
        if from + 1 < rest.len() {
            lemma_raw_shift(all, rest, from + 2);
        }
    }
}

/// A listing of records is read back as the records that were written: the two modes, the
/// two ids, the letter and the path of each, in order.
pub proof fn law_raw_records_are_read_back(
    raw: &[u8],
    heads: Seq<Seq<Seq<u8>>>,
    paths: Seq<Seq<u8>>,
    r: Result<Vec<RawRecord>, EngineError>,
)
    requires
        call_ensures(parse_raw_z, (raw,), r),
        listable(heads, paths),
        raw@ == join(raw_fields(heads, paths), 0u8),
    ensures
        r matches Ok(records) && records@.len() == heads.len() && forall|i: int|
            0 <= i < records@.len() ==> {
                &&& (#[trigger] records@[i]).old_mode@ == lossy_text(heads[i][0])
                &&& records@[i].new_mode@ == lossy_text(heads[i][1])
                &&& records@[i].old_oid@ == lossy_text(heads[i][2])
                &&& records@[i].new_oid@ == lossy_text(heads[i][3])
                &&& records@[i].status == heads[i][4][0]
                &&& records@[i].path@ == paths[i]
            },
{
    lemma_raw_fields(heads, paths);
    law_split_undoes_join(raw_fields(heads, paths), 0u8);
    let records = r->Ok_0;
    let views = raw_views(records@);
    assert(forall|i: int| 0 <= i < records@.len() ==> views[i] == (#[trigger] records@[i])@);
}

/// Whether an entry can stand in a listing of names: a rename or a copy is its status,
/// with a score up to 255 behind the letter, and two paths; everything else its status
/// and one path. None of them holds a zero byte.
pub open spec fn is_entry(e: Seq<Seq<u8>>) -> bool {
    &&& e.len() >= 2
    &&& e[0].len() > 0
    &&& forall|k: int| 0 <= k < e.len() ==> !(#[trigger] e[k]).contains(0u8)
    &&& if e[0][0] as char == 'R' || e[0][0] as char == 'C' {
        e.len() == 3 && score_of(e[0]) is Some
    } else {
        e.len() == 2
    }
}

/// The fields of a listing of names, with the empty one behind the last zero byte.
pub open spec fn name_fields(entries: Seq<Seq<Seq<u8>>>) -> Seq<Seq<u8>>
    decreases entries.len(),
{
    if entries.len() == 0 {
        seq![Seq::<u8>::empty()]
    } else {
        entries[0] + name_fields(entries.drop_first())
    }
}

/// The entries of a listing that are renames, in order.
pub open spec fn renames_among(entries: Seq<Seq<Seq<u8>>>) -> Seq<Seq<Seq<u8>>>
    decreases entries.len(),
{
    if entries.len() == 0 {
        Seq::empty()
    } else if entries[0][0][0] as char == 'R' {
        seq![entries[0]] + renames_among(entries.drop_first())
    } else {
        renames_among(entries.drop_first())
    }
}

/// Fields in front move the reading by as many.
proof fn lemma_names_shift(all: Seq<Seq<u8>>, rest: Seq<Seq<u8>>, n: int, from: int)
    requires
        n >= 0,
        all.len() == rest.len() + n,
        forall|k: int| 0 <= k < rest.len() ==> #[trigger] rest[k] == all[k + n],
        0 <= from,
    ensures
        renames_from(all, from + n) == renames_from(rest, from),
    decreases rest.len() - from,
{
    if from < rest.len() {
        assert(rest[from] == all[from + n]);
        lemma_names_shift(all, rest, n, from + 1);
        if from + 1 < rest.len() {
            assert(rest[from + 1] == all[from + 1 + n]);
            lemma_names_shift(all, rest, n, from + 2);
        }
        if from + 2 < rest.len() {
            assert(rest[from + 2] == all[from + 2 + n]);
            lemma_names_shift(all, rest, n, from + 3);
        }
    }
}

/// No field of a listing holds a zero byte, and its renames are read.
proof fn lemma_name_fields(entries: Seq<Seq<Seq<u8>>>)
    requires
        forall|i: int| 0 <= i < entries.len() ==> is_entry(#[trigger] entries[i]),
    ensures
        name_fields(entries).len() > 0,
        forall|k: int|
            0 <= k < name_fields(entries).len() ==> !(#[trigger] name_fields(entries)[k]).contains(
                0u8,
            ),
        renames_from(name_fields(entries), 0) matches Ok(ps) && ps.len() == renames_among(
            entries,
        ).len() && forall|i: int|
            0 <= i < ps.len() ==> (#[trigger] ps[i]).old_path == renames_among(entries)[i][1]
                && ps[i].new_path == renames_among(entries)[i][2] && Some(ps[i].similarity as nat)
                == score_of(renames_among(entries)[i][0]),
    decreases entries.len(),
{
    let all = name_fields(entries);
    if entries.len() == 0 {
        reveal_with_fuel(renames_from, 3);
        assert(all[0] =~= Seq::<u8>::empty());
    } else {
        let es = entries.drop_first();
        assert forall|i: int| 0 <= i < es.len() implies is_entry(#[trigger] es[i]) by {
            assert(es[i] == entries[i + 1]);
        }
        lemma_name_fields(es);
        let rest = name_fields(es);
        let e = entries[0];
        assert(is_entry(e));
        assert(all == e + rest);
        assert forall|k: int| 0 <= k < all.len() implies !(#[trigger] all[k]).contains(0u8) by {
            if k < e.len() {
                assert(all[k] == e[k]);
            } else {
                assert(all[k] == rest[k - e.len()]);
            }
        }
        lemma_names_shift(all, rest, e.len() as int, 0);
        assert(all[0] == e[0] && all[1] == e[1]);
        let ps = renames_from(rest, 0)->Ok_0;
        let status = e[0];
        if status[0] as char == 'R' || status[0] as char == 'C' {
            assert(all[2] == e[2]);
            assert(score_of(status)->0 <= 255);
            if status[0] as char == 'R' {
                let one = PairView {
                    old_path: e[1],
                    new_path: e[2],
                    similarity: score_of(status)->0 as u8,
                };
                let got = seq![one] + ps;
                assert(renames_from(all, 0) == Ok::<Seq<PairView>, RenameFault>(got));
                let among = renames_among(entries);
                assert(among == seq![e] + renames_among(es));
                assert forall|i: int| 0 <= i < got.len() implies (#[trigger] got[i]).old_path
                    == among[i][1] && got[i].new_path == among[i][2] && Some(
                    got[i].similarity as nat,
                ) == score_of(among[i][0]) by {
                    if i > 0 {
                        assert(got[i] == ps[i - 1]);
                        assert(among[i] == renames_among(es)[i - 1]);
                    }
                }
            }
        }
    }
}

/// Of a listing of names the renames are read back, in order, each with its two paths and
/// its score; a copy and a file under one name are no rename.
pub proof fn law_renames_are_read_back(
    raw: &[u8],
    entries: Seq<Seq<Seq<u8>>>,
    r: Result<Vec<RenamePair>, EngineError>,
)
    requires
        call_ensures(parse_renames_z, (raw,), r),
        forall|i: int| 0 <= i < entries.len() ==> is_entry(#[trigger] entries[i]),
        raw@ == join(name_fields(entries), 0u8),
    ensures
        r matches Ok(pairs) && pairs@.len() == renames_among(entries).len() && forall|i: int|
            0 <= i < pairs@.len() ==> {
                &&& (#[trigger] pairs@[i]).old_path@ == renames_among(entries)[i][1]
                &&& pairs@[i].new_path@ == renames_among(entries)[i][2]
                &&& Some(pairs@[i].similarity as nat) == score_of(renames_among(entries)[i][0])
            },
{
    lemma_name_fields(entries);
    law_split_undoes_join(name_fields(entries), 0u8);
    let pairs = r->Ok_0;
    let views = pair_views(pairs@);
    assert(forall|i: int| 0 <= i < pairs@.len() ==> views[i] == (#[trigger] pairs@[i])@);
}

} // verus!
