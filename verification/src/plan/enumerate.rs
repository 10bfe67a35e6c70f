//! Raw git output in, a classified diff view out. No I/O.
use vstd::prelude::*;
use vstd::string::*;
use vstd::utf8::encode_utf8;

use crate::invariants::{accounted, is_listed, owns_its_list};
use crate::lang::LanguageRegistry;
use crate::model::{DiffView, FileChange, GeneratedBy, Hunk};
use crate::parse::{
    hunks_before, is_file, is_hunk, is_view_of, law_a_parsed_view_is_accounted, lemma_file_of_hunk,
    opt_text, parse_canonical, patch_fault, patch_files, FileText,
};
use crate::plan::staging::opt;
use crate::rename_view::{
    annotated, enumeration_hole, is_bad_record, is_rename_error, merge_raw, merge_renames,
    no_record, overlaid, parse_raw_z, parse_renames_z, raw_from, raw_views, record_for,
    renames_from, RawRecord, RenamePair,
};
use crate::seqs::{bytes_eq, split, views};
use crate::shape::{
    class_key, hunk_form, is_grouping, is_partition, is_pure, largest_first, partition, Partition,
};
use crate::EngineError;

verus! {

/// The three git outputs that an enumeration is built from. Which commands produced
/// these is the adapter's business.
#[derive(Debug, Clone, Copy)]
pub struct Enumeration<'a> {
    /// `diff-tree -r -z --raw --full-index --no-renames`: authoritative modes,
    /// full oids, dispositions.
    pub raw_records: &'a [u8],
    /// `diff-tree -r -U0 --no-renames --no-color --no-ext-diff`: the canonical patch.
    /// Every hunk in the system comes from here.
    pub canonical_patch: &'a [u8],
    /// `diff-tree -r -M -z --name-status`: rename-detected annotations only. Never
    /// affects what exists.
    pub rename_records: &'a [u8],
}

/// Whether an answer is the view that three listings make: every file and every hunk
/// of the patch, annotated and accounted for; else the first listing that cannot be
/// read, or the disagreement between them.
pub open spec fn is_enumeration(e: &Enumeration<'_>, r: Result<DiffView, EngineError>) -> bool {
    &&& r matches Ok(view) ==> view.wf() && accounted(&view) && exists|
        canonical: DiffView,
        records: Seq<RawRecord>,
        mid: Seq<FileChange>,
        pairs: Seq<RenamePair>,
    | #[trigger] is_built(view, canonical, e, records, mid, pairs)
    &&& r is Ok <==> can_build(e)
    &&& r matches Err(err) ==> match raw_from(split(e.raw_records@, 0u8), 0) {
        Err(meta) => is_bad_record(err, meta),
        Ok(records) => match patch_files(e.canonical_patch@) {
            Err(at) => err matches EngineError::Parse { line, msg } && line == at + 1 && msg@
                == patch_fault(e.canonical_patch@),
            Ok(files) => if same_files(records, files) {
                renames_from(split(e.rename_records@, 0u8), 0) matches Err(fault)
                    && is_rename_error(err, fault)
            } else {
                err matches EngineError::Invariant(msg) && is_disagreement(records, files, msg@)
            },
        },
    }
}

/// Build the canonical view: the patch says what exists, the raw records add modes
/// and ids, the rename records annotate.
///
/// Takes no configuration and no languages: nothing reachable from here can
/// remove a file or a hunk.
pub fn build_view(e: &Enumeration<'_>) -> (r: Result<DiffView, EngineError>)
    ensures
        is_enumeration(e, r),
{
    let records = match parse_raw_z(e.raw_records) {
        Ok(records) => records,
        Err(err) => {
            return Err(err);
        },
    };
    let mut view = match parse_canonical(e.canonical_patch) {
        Ok(view) => view,
        Err(err) => {
            return Err(err);
        },
    };
    let ghost canonical = view;
    proof {
        lemma_records_by_path(records@, canonical);
        lemma_same_files(records@, canonical, patch_files(e.canonical_patch@)->Ok_0);
    }
    match merge_raw(&mut view, records.as_slice()) {
        Ok(_) => {},
        Err(err) => {
            proof {
                let files = patch_files(e.canonical_patch@)->Ok_0;
                let vs = raw_views(records@);
                assert forall|j: int| 0 <= j < files.len() implies (names_path(
                    vs,
                    (#[trigger] files[j]).path,
                ) <==> record_for(records@, canonical.files@[j].path@) is Some) by {
                    assert(canonical.files@[j].path@ == files[j].path);
                }
                let msg = err->Invariant_0@;
                if !is_disagreement(vs, files, msg) {
                    assert forall|k: int|
                        0 <= k < canonical.files@.len() && record_for(
                            records@,
                            (#[trigger] canonical.files@[k]).path@,
                        ) is None && msg == no_record(canonical.files@[k].path@) && (forall|j: int|
                            0 <= j < k ==> record_for(
                                records@,
                                (#[trigger] canonical.files@[j]).path@,
                            ) is Some) implies false by {
                        assert(files[k].path == canonical.files@[k].path@);
                        assert forall|j: int| 0 <= j < k implies names_path(
                            vs,
                            (#[trigger] files[j]).path,
                        ) by {
                            assert(record_for(records@, canonical.files@[j].path@) is Some);
                        }
                    }
                }
            }
            return Err(err);
        },
    }
    let ghost overlaid_files = view.files@;
    let pairs = match parse_renames_z(e.rename_records) {
        Ok(pairs) => pairs,
        Err(err) => {
            return Err(err);
        },
    };
    merge_renames(&mut view, pairs.as_slice());
    proof {
        assert forall|i: int| 0 <= i < view.files@.len() implies is_step(
            #[trigger] view.files@[i],
            overlaid_files[i],
            canonical.files@[i],
            records@,
            pairs@,
        ) by {
            assert(annotated(view.files@[i], overlaid_files[i], pairs@));
        }
        assert(is_built(view, canonical, e, records@, overlaid_files, pairs@));
        law_a_parsed_view_is_accounted(&canonical, patch_files(e.canonical_patch@)->Ok_0);
        lemma_same_lists(&canonical, &view);
    }
    Ok(view)
}

/// Accounting is about the hunks and who lists them, nothing else.
pub proof fn lemma_same_lists(a: &DiffView, b: &DiffView)
    requires
        accounted(a),
        a.hunks == b.hunks,
        a.files@.len() == b.files@.len(),
        forall|i: int| 0 <= i < b.files@.len() ==> (#[trigger] b.files@[i]).hunks == a.files@[i].hunks,
    ensures
        accounted(b),
{
    assert forall|f: int| 0 <= f < b.files@.len() implies owns_its_list(b, f) by {
        assert(owns_its_list(a, f));
        assert(b.files@[f].hunks == a.files@[f].hunks);
    }
    assert forall|h: int| 0 <= h < b.hunks@.len() implies is_listed(b, h) by {
        assert(is_listed(a, h));
        let (f, k) = choose|f: int, k: int|
            0 <= f < a.files@.len() && 0 <= k < a.files@[f].hunks@.len()
                && #[trigger] a.files@[f].hunks@[k] == h;
        assert(b.files@[f].hunks@[k] == h);
    }
}

/// Whether a file is another with the raw record laid over it and then the rename
/// annotations.
pub open spec fn is_step(
    new: FileChange,
    mid: FileChange,
    old: FileChange,
    records: Seq<RawRecord>,
    pairs: Seq<RenamePair>,
) -> bool {
    &&& record_for(records, old.path@) matches Some(rec) && overlaid(mid, old, rec)
    &&& annotated(new, mid, pairs)
}

/// Whether a view is the canonical one with the annotations of both listings.
pub open spec fn is_built(
    view: DiffView,
    canonical: DiffView,
    e: &Enumeration<'_>,
    records: Seq<RawRecord>,
    mid: Seq<FileChange>,
    pairs: Seq<RenamePair>,
) -> bool {
    &&& patch_files(e.canonical_patch@) matches Ok(files) && is_view_of(canonical, files)
    &&& view.hunks == canonical.hunks
    &&& view.files@.len() == canonical.files@.len()
    &&& raw_from(split(e.raw_records@, 0u8), 0) == Ok::<Seq<crate::rename_view::RawView>, Seq<u8>>(
        raw_views(records),
    )
    &&& renames_from(split(e.rename_records@, 0u8), 0) == Ok::<
        Seq<crate::rename_view::PairView>,
        crate::rename_view::RenameFault,
    >(crate::rename_view::pair_views(pairs))
    &&& forall|i: int|
        0 <= i < view.files@.len() ==> is_step(
            #[trigger] view.files@[i],
            mid[i],
            canonical.files@[i],
            records,
            pairs,
        )
}

/// Whether raw records name a path.
pub open spec fn names_path(records: Seq<crate::rename_view::RawView>, path: Seq<u8>) -> bool {
    exists|k: int| 0 <= k < records.len() && (#[trigger] records[k]).path == path
}

/// Whether raw records count the files of a patch: as many, and one for each path.
pub open spec fn same_files(
    records: Seq<crate::rename_view::RawView>,
    files: Seq<FileText>,
) -> bool {
    records.len() == files.len() && forall|i: int|
        0 <= i < files.len() ==> names_path(records, (#[trigger] files[i]).path)
}

/// What is said of raw records that do not count the files of a patch: the first file
/// without a record, else the two numbers.
pub open spec fn is_disagreement(
    records: Seq<crate::rename_view::RawView>,
    files: Seq<FileText>,
    msg: Seq<char>,
) -> bool {
    ||| exists|k: int|
        {
            &&& 0 <= k < files.len()
            &&& !names_path(records, (#[trigger] files[k]).path)
            &&& msg == no_record(files[k].path)
            &&& forall|j: int| 0 <= j < k ==> names_path(records, (#[trigger] files[j]).path)
        }
    ||| {
        &&& forall|j: int|
            0 <= j < files.len() ==> names_path(records, (#[trigger] files[j]).path)
        &&& msg == enumeration_hole(files.len(), records.len())
    }
}

/// Whether all three outputs can be read and the raw records count the files of the
/// patch.
pub open spec fn can_build(e: &Enumeration<'_>) -> bool {
    &&& raw_from(split(e.raw_records@, 0u8), 0) matches Ok(records) && (patch_files(
        e.canonical_patch@,
    ) matches Ok(files) && same_files(records, files))
    &&& renames_from(split(e.rename_records@, 0u8), 0) is Ok
}

proof fn lemma_same_files(records: Seq<RawRecord>, canonical: DiffView, files: Seq<FileText>)
    requires
        is_view_of(canonical, files),
    ensures
        files.len() == canonical.files@.len(),
        forall|i: int|
            0 <= i < files.len() ==> (#[trigger] files[i]).path == canonical.files@[i].path@,
        same_files(raw_views(records), files) <==> (records.len() == canonical.files@.len()
            && forall|i: int|
            0 <= i < canonical.files@.len() ==> names_path(
                raw_views(records),
                (#[trigger] canonical.files@[i]).path@,
            )),
{
    assert forall|i: int| 0 <= i < files.len() implies (#[trigger] files[i]).path
        == canonical.files@[i].path@ by {
        assert(is_file(
            canonical.files@[i],
            files[i],
            crate::parse::hunks_before(files, i as nat) as int,
        ));
    }
    if same_files(raw_views(records), files) {
        assert forall|i: int| 0 <= i < canonical.files@.len() implies names_path(
            raw_views(records),
            (#[trigger] canonical.files@[i]).path@,
        ) by {
            assert(names_path(raw_views(records), files[i].path));
        }
    }
    if forall|i: int|
        0 <= i < canonical.files@.len() ==> names_path(
            raw_views(records),
            (#[trigger] canonical.files@[i]).path@,
        ) {
        assert forall|i: int| 0 <= i < files.len() implies names_path(
            raw_views(records),
            (#[trigger] files[i]).path,
        ) by {
            assert(names_path(raw_views(records), canonical.files@[i].path@));
        }
    }
}

proof fn lemma_record_for(records: Seq<RawRecord>, path: Seq<u8>)
    ensures
        record_for(records, path) is Some <==> names_path(raw_views(records), path),
    decreases records.len(),
{
    let vs = raw_views(records);
    if records.len() > 0 {
        let p = records.drop_last();
        lemma_record_for(p, path);
        if records.last().path@ == path {
            assert(vs[records.len() - 1].path == path);
        }
        if names_path(raw_views(p), path) {
            let k = choose|k: int| 0 <= k < raw_views(p).len() && (#[trigger] raw_views(
                p,
            )[k]).path == path;
            assert(vs[k].path == path);
        }
        if names_path(vs, path) && records.last().path@ != path {
            let k = choose|k: int| 0 <= k < vs.len() && (#[trigger] vs[k]).path == path;
            assert(raw_views(p)[k].path == path);
        }
    }
}

proof fn lemma_records_by_path(records: Seq<RawRecord>, canonical: DiffView)
    ensures
        forall|i: int|
            0 <= i < canonical.files@.len() ==> (record_for(
                records,
                (#[trigger] canonical.files@[i]).path@,
            ) is Some <==> names_path(raw_views(records), canonical.files@[i].path@)),
{
    assert forall|i: int| 0 <= i < canonical.files@.len() implies (record_for(
        records,
        (#[trigger] canonical.files@[i]).path@,
    ) is Some <==> names_path(raw_views(records), canonical.files@[i].path@)) by {
        lemma_record_for(records, canonical.files@[i].path@);
    }
}

/// Whether two hunks say the same.
pub open spec fn same_hunk(a: Hunk, b: Hunk) -> bool {
    &&& a.file == b.file
    &&& a.old_start == b.old_start && a.old_count == b.old_count
    &&& a.new_start == b.new_start && a.new_count == b.new_count
    &&& views(a.removed@) == views(b.removed@)
    &&& views(a.added@) == views(b.added@)
    &&& a.nonl_old == b.nonl_old && a.nonl_new == b.nonl_new
}

/// The commits of a submodule, by what they say.
pub open spec fn links(s: Option<(Option<String>, Option<String>)>) -> Option<
    (Option<Seq<char>>, Option<Seq<char>>),
> {
    match s {
        Some((a, b)) => Some((opt(a), opt(b))),
        None => None,
    }
}

/// Whether two files say the same, apart from the three fields that tell of a rename.
pub open spec fn same_but_renames(a: FileChange, b: FileChange) -> bool {
    &&& a.path@ == b.path@
    &&& a.disposition == b.disposition
    &&& opt(a.new_mode) == opt(b.new_mode)
    &&& opt(a.old_mode) == opt(b.old_mode)
    &&& a.binary == b.binary
    &&& links(a.submodule) == links(b.submodule)
    &&& opt(a.old_oid) == opt(b.old_oid)
    &&& opt(a.new_oid) == opt(b.new_oid)
    &&& a.hunks@ == b.hunks@
    &&& a.generated == b.generated
}

proof fn lemma_same_record(a: Seq<RawRecord>, b: Seq<RawRecord>, path: Seq<u8>)
    requires
        raw_views(a) == raw_views(b),
    ensures
        match (record_for(a, path), record_for(b, path)) {
            (Some(x), Some(y)) => x@ == y@,
            (None, None) => true,
            _ => false,
        },
    decreases a.len(),
{
    assert(raw_views(a).len() == a.len() && raw_views(b).len() == b.len());
    if a.len() > 0 {
        assert(raw_views(a)[a.len() - 1] == a.last()@);
        assert(raw_views(b)[b.len() - 1] == b.last()@);
        assert(raw_views(a.drop_last()) =~= raw_views(a).drop_last());
        assert(raw_views(b.drop_last()) =~= raw_views(b).drop_last());
        lemma_same_record(a.drop_last(), b.drop_last(), path);
    }
}

/// Two files of one section of a patch say the same.
proof fn lemma_same_file(a: FileChange, b: FileChange, t: FileText, base: int)
    requires
        is_file(a, t, base),
        is_file(b, t, base),
    ensures
        same_but_renames(a, b),
{
    assert(opt(a.old_mode) == opt_text(a.old_mode) && opt(b.old_mode) == opt_text(b.old_mode));
    assert(a.hunks@ =~= b.hunks@) by {
        assert forall|k: int| 0 <= k < a.hunks@.len() implies a.hunks@[k] == b.hunks@[k] by {
            assert(a.hunks@[k] == base + k && b.hunks@[k] == base + k);
        }
    }
    if t.meta.gitlink {
        let (x, y) = a.submodule->0;
        let (u, v) = b.submodule->0;
        assert(opt(x) == opt_text(x) && opt(y) == opt_text(y));
        assert(opt(u) == opt_text(u) && opt(v) == opt_text(v));
    }
}

/// The rename records only annotate: two enumerations that differ in nothing else give
/// the same files in the same order and the same hunks, and the files differ at most
/// in the three fields that tell of a rename.
pub proof fn law_rename_records_only_annotate(
    e1: &Enumeration<'_>,
    e2: &Enumeration<'_>,
    v1: DiffView,
    v2: DiffView,
)
    requires
        e1.raw_records@ == e2.raw_records@,
        e1.canonical_patch@ == e2.canonical_patch@,
        is_enumeration(e1, Ok(v1)),
        is_enumeration(e2, Ok(v2)),
    ensures
        v1.files@.len() == v2.files@.len(),
        forall|i: int|
            0 <= i < v1.files@.len() ==> same_but_renames(
                #[trigger] v1.files@[i],
                v2.files@[i],
            ),
        v1.hunks@.len() == v2.hunks@.len(),
        forall|h: int|
            0 <= h < v1.hunks@.len() ==> same_hunk(#[trigger] v1.hunks@[h], v2.hunks@[h]),
{
    let files = patch_files(e1.canonical_patch@)->Ok_0;
    let (c1, r1, m1, p1) = choose|
        c: DiffView,
        r: Seq<RawRecord>,
        m: Seq<FileChange>,
        p: Seq<RenamePair>,
    | #[trigger] is_built(v1, c, e1, r, m, p);
    let (c2, r2, m2, p2) = choose|
        c: DiffView,
        r: Seq<RawRecord>,
        m: Seq<FileChange>,
        p: Seq<RenamePair>,
    | #[trigger] is_built(v2, c, e2, r, m, p);
    assert(is_built(v1, c1, e1, r1, m1, p1) && is_built(v2, c2, e2, r2, m2, p2));
    assert forall|i: int| 0 <= i < v1.files@.len() implies same_but_renames(
        #[trigger] v1.files@[i],
        v2.files@[i],
    ) by {
        let base = hunks_before(files, i as nat) as int;
        assert(is_step(v1.files@[i], m1[i], c1.files@[i], r1, p1));
        assert(is_step(v2.files@[i], m2[i], c2.files@[i], r2, p2));
        assert(is_file(c1.files@[i], files[i], base));
        assert(is_file(c2.files@[i], files[i], base));
        lemma_same_file(c1.files@[i], c2.files@[i], files[i], base);
        lemma_same_record(r1, r2, c1.files@[i].path@);
    }
    assert forall|h: int| 0 <= h < v1.hunks@.len() implies same_hunk(
        #[trigger] v1.hunks@[h],
        v2.hunks@[h],
    ) by {
        let f = lemma_file_of_hunk(files, files.len(), h);
        let k = h - hunks_before(files, f as nat);
        assert(is_hunk(c1.hunks@[hunks_before(files, f as nat) + k], files[f].hunks[k], f));
        assert(is_hunk(c2.hunks@[hunks_before(files, f as nat) + k], files[f].hunks[k], f));
    }
}

/// The paths of a view.
pub open spec fn paths_in(view: DiffView) -> Seq<Seq<u8>> {
    view.files@.map_values(|f: FileChange| f.path@)
}

/// No file is left out, whatever its name: where the patch names no path twice, the
/// paths of a view are those of the raw records, all of them and no other.
pub proof fn law_every_raw_record_is_a_file(e: &Enumeration<'_>, view: DiffView)
    requires
        is_enumeration(e, Ok(view)),
        paths_in(view).no_duplicates(),
    ensures
        raw_from(split(e.raw_records@, 0u8), 0) matches Ok(records) && records.len()
            == view.files@.len() && forall|p: Seq<u8>| #[trigger]
            names_path(records, p) <==> paths_in(view).contains(p),
{
    let records = raw_from(split(e.raw_records@, 0u8), 0)->Ok_0;
    let files = patch_files(e.canonical_patch@)->Ok_0;
    let (c, r, m, p) = choose|
        c: DiffView,
        r: Seq<RawRecord>,
        m: Seq<FileChange>,
        p: Seq<RenamePair>,
    | #[trigger] is_built(view, c, e, r, m, p);
    assert(is_built(view, c, e, r, m, p));
    let ours = paths_in(view);
    let theirs = records.map_values(|x: crate::rename_view::RawView| x.path);
    assert forall|i: int| 0 <= i < ours.len() implies theirs.contains(#[trigger] ours[i]) by {
        assert(is_step(view.files@[i], m[i], c.files@[i], r, p));
        assert(is_file(c.files@[i], files[i], hunks_before(files, i as nat) as int));
        assert(names_path(records, files[i].path));
        let k = choose|k: int|
            0 <= k < records.len() && (#[trigger] records[k]).path == files[i].path;
        assert(theirs[k] == ours[i]);
    }
    assert(ours.to_set().subset_of(theirs.to_set()));
    ours.unique_seq_to_set();
    theirs.lemma_cardinality_of_set();
    vstd::set_lib::lemma_len_subset(ours.to_set(), theirs.to_set());
    vstd::set_lib::lemma_subset_equality(ours.to_set(), theirs.to_set());
    assert forall|q: Seq<u8>| #[trigger] names_path(records, q) <==> ours.contains(q) by {
        if names_path(records, q) {
            let k = choose|k: int| 0 <= k < records.len() && (#[trigger] records[k]).path == q;
            assert(theirs[k] == q);
            assert(theirs.to_set().contains(q));
            assert(ours.to_set().contains(q));
        }
        if ours.contains(q) {
            assert(ours.to_set().contains(q));
            assert(theirs.to_set().contains(q));
            let k = choose|k: int| 0 <= k < theirs.len() && theirs[k] == q;
            assert(records[k].path == q);
        }
    }
}

/// Whether `new` is `old` with another generated mark.
pub open spec fn marked(new: FileChange, old: FileChange, mark: Option<GeneratedBy>) -> bool {
    &&& new.generated == mark
    &&& new.path == old.path
    &&& new.disposition == old.disposition
    &&& new.new_mode == old.new_mode
    &&& new.old_mode == old.old_mode
    &&& new.binary == old.binary
    &&& new.submodule == old.submodule
    &&& new.old_oid == old.old_oid
    &&& new.new_oid == old.new_oid
    &&& new.hunks == old.hunks
    &&& new.rename_similarity == old.rename_similarity
    &&& new.rename_from == old.rename_from
    &&& new.rename_to == old.rename_to
}

/// Set the generated marks and compute the mechanical partition.
///
/// The only place where configuration and languages enter: both tune how hunks
/// are described, never which ones exist.
pub fn classify(
    view: &mut DiffView,
    marks: &Vec<Option<GeneratedBy>>,
    langs: &LanguageRegistry,
) -> (r: Partition)
    requires
        old(view).wf(),
        marks@.len() == old(view).files@.len(),
    ensures
        final(view).hunks == old(view).hunks,
        final(view).files@.len() == old(view).files@.len(),
        forall|i: int|
            0 <= i < marks@.len() ==> marked(
                #[trigger] final(view).files@[i],
                old(view).files@[i],
                marks@[i],
            ),
        r.class_of@.len() == old(view).hunks@.len(),
        r.pure@.len() == r.classes@.len(),
        is_partition(r.classes@, r.class_of@),
        is_grouping(r.class_of@, |i: int| class_key(final(view), langs, i)),
        largest_first(r.classes@),
        forall|c: int|
            0 <= c < r.classes@.len() ==> #[trigger] r.pure@[c] == is_pure(
                &final(view).hunks@[r.classes@[c]@[0] as int],
                hunk_form(final(view), langs, r.classes@[c]@[0] as int),
            ),
{
    let ghost was = view.files@;
    let n = view.files.len();
    for i in 0..n
        invariant
            n == was.len(),
            marks@.len() == n,
            was == old(view).files@,
            view.hunks == old(view).hunks,
            view.files@.len() == n,
            forall|k: int| 0 <= k < i ==> marked(#[trigger] view.files@[k], was[k], marks@[k]),
            forall|k: int| i <= k < n ==> view.files@[k] == was[k],
    {
        let ghost before = view.files@;
        view.files[i].generated = marks[i];
        assert(forall|j: int| 0 <= j < n && j != i ==> view.files@[j] == before[j]);
    }
    assert(view.wf());
    partition(view, langs)
}

/// Whether an attribute value declares a path generated.
pub open spec fn marks_generated(value: Seq<u8>) -> bool {
    &&& value != encode_utf8("unspecified"@)
    &&& value != encode_utf8("unset"@)
    &&& value != encode_utf8("false"@)
}

/// Whether an attribute value declares a path generated: git answers
/// `unspecified`, `unset` or `false` for "no"; anything else is a declaration.
pub fn attr_marks_generated(value: &[u8]) -> (r: bool)
    ensures
        r == marks_generated(value@),
{
    !bytes_eq(value, "unspecified".as_bytes()) && !bytes_eq(value, "unset".as_bytes())
        && !bytes_eq(value, "false".as_bytes())
}

} // verus!
