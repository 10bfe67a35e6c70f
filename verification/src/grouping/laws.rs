//! What holds of the grouping stage as a whole, said of the document that goes in, the
//! model's answer, and the document that comes out.
use vstd::prelude::*;

use super::assemble::{
    in_tier, info_names, noise_group, skim_order, tagged, tier_of, tiers, Tier,
};
use super::coverage::{bare, law_every_class_is_in_one_group, plan_items};
use super::gate::{extracted, gated_ids, moved_group, sifted, ungated, ungated_groups};
use super::infos::{
    class_infos, class_resolves, consistent, describes, file_entry, member_digests, member_files,
    resolves, rewritten,
};
use super::parse::{RawGroup, RawGroups};
use super::{
    audited_groups, carried, final_groups, fresh, groupable, ids_of, is_grouped, kept_groups,
    lemma_group_of_carried, lemma_same_items, mentions, omitted, routed, run, ClassInfo,
    WorkGroupView,
};
use crate::schema::{
    file_names, group_views, hunk_names, last_pos, lemma_last_pos, ClassEntry, Effort, FileEntry,
    PlanDocument,
};
use crate::seqs::{chars_lt, lemma_lt_is_order, lemma_push_contains, lemma_sorted_multiset, texts};
use crate::seqs::{is_order, sorted_by};

verus! {

/// Whether no two hunks of a document share an id, and no two files a path.
pub open spec fn names_are_unique(doc: PlanDocument) -> bool {
    &&& forall|i: int, j: int|
        0 <= i < j < doc.hunks@.len() ==> (#[trigger] doc.hunks@[i]).id@ != (
        #[trigger] doc.hunks@[j]).id@
    &&& forall|i: int, j: int|
        0 <= i < j < doc.files@.len() ==> (#[trigger] doc.files@[i]).path@ != (
        #[trigger] doc.files@[j]).path@
}

/// Whether a member of a class lies in a file.
pub open spec fn touches(doc: PlanDocument, c: ClassEntry, f: FileEntry) -> bool {
    exists|h: int|
        0 <= h < doc.hunks@.len() && texts(c.hunk_ids@).contains((#[trigger] doc.hunks@[h]).id@)
            && doc.hunks@[h].file@ == f.path@
}

/// Whether a class has a member in a file that was renamed with less than 95 percent
/// kept.
pub open spec fn touches_low_rename(doc: PlanDocument, c: ClassEntry) -> bool {
    exists|f: int|
        0 <= f < doc.files@.len() && touches(doc, c, #[trigger] doc.files@[f]) && (
        doc.files@[f].rename_similarity matches Some(s) && s < 95)
}

/// Whether every member of a class lies in a generated file.
pub open spec fn is_all_generated(doc: PlanDocument, c: ClassEntry) -> bool {
    forall|f: int|
        0 <= f < doc.files@.len() && touches(doc, c, #[trigger] doc.files@[f])
            ==> doc.files@[f].generated
}

proof fn lemma_hunk_names_unique(doc: PlanDocument)
    requires
        names_are_unique(doc),
    ensures
        hunk_names(doc.hunks@).no_duplicates(),
        file_names(doc.files@).no_duplicates(),
{
    let hn = hunk_names(doc.hunks@);
    let fnames = file_names(doc.files@);
    assert forall|i: int, j: int| 0 <= i < hn.len() && 0 <= j < hn.len() && i != j implies hn[i]
        != hn[j] by {
        if i < j {
            assert(doc.hunks@[i].id@ != doc.hunks@[j].id@);
        } else {
            assert(doc.hunks@[j].id@ != doc.hunks@[i].id@);
        }
    }
    assert forall|i: int, j: int|
        0 <= i < fnames.len() && 0 <= j < fnames.len() && i != j implies fnames[i] != fnames[j] by {
        if i < j {
            assert(doc.files@[i].path@ != doc.files@[j].path@);
        } else {
            assert(doc.files@[j].path@ != doc.files@[i].path@);
        }
    }
}

/// The paths that the members of a class lie in are those of the files that it touches.
proof fn lemma_member_files(doc: PlanDocument, c: ClassEntry, f: int)
    requires
        names_are_unique(doc),
        class_resolves(&doc, c),
        0 <= f < doc.files@.len(),
    ensures
        member_files(&doc, c).contains(doc.files@[f].path@) <==> touches(doc, c, doc.files@[f]),
        file_entry(&doc, doc.files@[f].path@) == doc.files@[f],
{
    let hn = hunk_names(doc.hunks@);
    let path = doc.files@[f].path@;
    lemma_hunk_names_unique(doc);
    lemma_last_pos(file_names(doc.files@), path);
    assert(file_names(doc.files@)[f] == path);
    let m = member_files(&doc, c);
    if m.contains(path) {
        let k = choose|k: int| 0 <= k < m.len() && m[k] == path;
        let id = c.hunk_ids@[k]@;
        assert(resolves(&doc, id));
        lemma_last_pos(hn, id);
        let h = last_pos(hn, id)->0;
        assert(doc.hunks@[h].id@ == hn[h]);
        assert(texts(c.hunk_ids@)[k] == doc.hunks@[h].id@);
        assert(touches(doc, c, doc.files@[f]));
    }
    if touches(doc, c, doc.files@[f]) {
        let h = choose|h: int|
            0 <= h < doc.hunks@.len() && texts(c.hunk_ids@).contains(
                (#[trigger] doc.hunks@[h]).id@,
            ) && doc.hunks@[h].file@ == path;
        let k = choose|k: int|
            0 <= k < c.hunk_ids@.len() && texts(c.hunk_ids@)[k] == doc.hunks@[h].id@;
        assert(hn[h] == c.hunk_ids@[k]@);
        lemma_last_pos(hn, hn[h]);
        assert(m[k] == path);
    }
}

/// A path that a member lies in is the path of a file of the document.
proof fn lemma_member_file_is_there(doc: PlanDocument, c: ClassEntry, path: Seq<char>) -> (f: int)
    requires
        class_resolves(&doc, c),
        member_files(&doc, c).contains(path),
    ensures
        0 <= f < doc.files@.len(),
        doc.files@[f].path@ == path,
{
    let m = member_files(&doc, c);
    let k = choose|k: int| 0 <= k < m.len() && m[k] == path;
    assert(resolves(&doc, c.hunk_ids@[k]@));
    lemma_last_pos(file_names(doc.files@), path);
    let f = last_pos(file_names(doc.files@), path)->0;
    assert(file_names(doc.files@)[f] == path);
    f
}

/// The digests of a class are those of its members.
proof fn lemma_digests(doc: PlanDocument, e: ClassEntry, info: ClassInfo)
    requires
        names_are_unique(doc),
        class_resolves(&doc, e),
        texts(info.digests@) == sorted_by(
            member_digests(&doc, e),
            |a: Seq<char>, b: Seq<char>| chars_lt(a, b),
        ),
    ensures
        forall|x: Seq<char>| #[trigger]
            texts(info.digests@).contains(x) <==> exists|h: int|
                0 <= h < doc.hunks@.len() && texts(e.hunk_ids@).contains(
                    (#[trigger] doc.hunks@[h]).id@,
                ) && doc.hunks@[h].digest@ == x,
{
    lemma_hunk_names_unique(doc);
    let d = member_digests(&doc, e);
    let lt = |a: Seq<char>, b: Seq<char>| chars_lt(a, b);
    assert(e.hunk_ids.len() <= usize::MAX);
    lemma_lt_is_order(d);
    lemma_sorted_multiset(d, lt);
    let sorted = texts(info.digests@);
    assert(sorted =~= sorted_by(d, lt));
    sorted.to_multiset_ensures();
    d.to_multiset_ensures();
    let hn = hunk_names(doc.hunks@);
    assert forall|x: Seq<char>| #[trigger] sorted.contains(x) <==> exists|h: int|
        0 <= h < doc.hunks@.len() && texts(e.hunk_ids@).contains((#[trigger] doc.hunks@[h]).id@)
            && doc.hunks@[h].digest@ == x by {
        assert(sorted.contains(x) <==> sorted.to_multiset().count(x) > 0);
        assert(d.contains(x) <==> d.to_multiset().count(x) > 0);
        if d.contains(x) {
            let k = choose|k: int| 0 <= k < d.len() && d[k] == x;
            assert(resolves(&doc, e.hunk_ids@[k]@));
            lemma_last_pos(hn, e.hunk_ids@[k]@);
            let h = last_pos(hn, e.hunk_ids@[k]@)->0;
            assert(doc.hunks@[h].id@ == hn[h]);
            assert(texts(e.hunk_ids@)[k] == doc.hunks@[h].id@);
        }
        if exists|h: int|
            0 <= h < doc.hunks@.len() && texts(e.hunk_ids@).contains(
                (#[trigger] doc.hunks@[h]).id@,
            ) && doc.hunks@[h].digest@ == x {
            let h = choose|h: int|
                0 <= h < doc.hunks@.len() && texts(e.hunk_ids@).contains(
                    (#[trigger] doc.hunks@[h]).id@,
                ) && doc.hunks@[h].digest@ == x;
            let k = choose|k: int|
                0 <= k < e.hunk_ids@.len() && texts(e.hunk_ids@)[k] == doc.hunks@[h].id@;
            assert(hn[h] == e.hunk_ids@[k]@);
            lemma_last_pos(hn, hn[h]);
            assert(d[k] == x);
        }
    }
}

/// The files of a class are those that it touches.
proof fn lemma_files(doc: PlanDocument, e: ClassEntry, info: ClassInfo)
    requires
        names_are_unique(doc),
        class_resolves(&doc, e),
        describes(info, &doc, e),
    ensures
        forall|f: int|
            0 <= f < doc.files@.len() ==> (texts(info.files@).contains(
                (#[trigger] doc.files@[f]).path@,
            ) <==> touches(doc, e, doc.files@[f])),
{
    assert forall|f: int| 0 <= f < doc.files@.len() implies (texts(info.files@).contains(
        (#[trigger] doc.files@[f]).path@,
    ) <==> touches(doc, e, doc.files@[f])) by {
        lemma_member_files(doc, e, f);
    }
}

/// The file at a place of a class's list is one that the class touches.
proof fn lemma_listed_file(doc: PlanDocument, e: ClassEntry, info: ClassInfo, k: int) -> (f: int)
    requires
        names_are_unique(doc),
        class_resolves(&doc, e),
        describes(info, &doc, e),
        0 <= k < texts(info.files@).len(),
    ensures
        0 <= f < doc.files@.len(),
        touches(doc, e, doc.files@[f]),
        file_entry(&doc, texts(info.files@)[k]) == doc.files@[f],
{
    let files = texts(info.files@);
    assert(files.contains(files[k]));
    assert(member_files(&doc, e).contains(files[k]));
    let f = lemma_member_file_is_there(doc, e, files[k]);
    lemma_member_files(doc, e, f);
    f
}

proof fn lemma_touched_is_listed(
    doc: PlanDocument,
    e: ClassEntry,
    info: ClassInfo,
    f: int,
) -> (k: int)
    requires
        names_are_unique(doc),
        class_resolves(&doc, e),
        describes(info, &doc, e),
        0 <= f < doc.files@.len(),
        touches(doc, e, doc.files@[f]),
    ensures
        0 <= k < texts(info.files@).len(),
        file_entry(&doc, texts(info.files@)[k]) == doc.files@[f],
{
    let files = texts(info.files@);
    lemma_member_files(doc, e, f);
    assert(files.contains(doc.files@[f].path@));
    choose|k: int| 0 <= k < files.len() && files[k] == doc.files@[f].path@
}

proof fn lemma_gate(doc: PlanDocument, e: ClassEntry, info: ClassInfo)
    requires
        names_are_unique(doc),
        class_resolves(&doc, e),
        describes(info, &doc, e),
    ensures
        info.rename_gated <==> touches_low_rename(doc, e),
{
    let files = texts(info.files@);
    if info.rename_gated {
        let k = choose|k: int|
            0 <= k < files.len() && rewritten(file_entry(&doc, #[trigger] files[k]));
        let f = lemma_listed_file(doc, e, info, k);
        assert(touches(doc, e, doc.files@[f]));
    }
    if touches_low_rename(doc, e) {
        let f = choose|f: int|
            0 <= f < doc.files@.len() && touches(doc, e, #[trigger] doc.files@[f]) && (
            doc.files@[f].rename_similarity matches Some(s) && s < 95);
        let k = lemma_touched_is_listed(doc, e, info, f);
        assert(rewritten(file_entry(&doc, files[k])));
    }
}

proof fn lemma_generated(doc: PlanDocument, e: ClassEntry, info: ClassInfo)
    requires
        names_are_unique(doc),
        class_resolves(&doc, e),
        describes(info, &doc, e),
    ensures
        info.all_generated <==> is_all_generated(doc, e),
{
    let files = texts(info.files@);
    if info.all_generated {
        assert forall|f: int|
            0 <= f < doc.files@.len() && touches(
                doc,
                e,
                #[trigger] doc.files@[f],
            ) implies doc.files@[f].generated by {
            let k = lemma_touched_is_listed(doc, e, info, f);
            assert(file_entry(&doc, files[k]).generated);
        }
    }
    if is_all_generated(doc, e) {
        assert forall|k: int| 0 <= k < files.len() implies file_entry(
            &doc,
            #[trigger] files[k],
        ).generated by {
            let f = lemma_listed_file(doc, e, info, k);
            assert(touches(doc, e, doc.files@[f]));
        }
    }
}

/// What is known of a class is what the document says of its members: it is held back
/// exactly where one of them lies in a file that was renamed with less than 95 percent
/// kept, and it is noise exactly where all of them lie in generated files.
pub proof fn law_infos_say_what_the_document_says(
    doc: PlanDocument,
    infos: Vec<ClassInfo>,
    c: int,
)
    requires
        consistent(&doc),
        names_are_unique(doc),
        call_ensures(class_infos, (&doc,), infos),
        0 <= c < doc.classes@.len(),
    ensures
        infos@.len() == doc.classes@.len(),
        infos@[c].id@ == doc.classes@[c].id@,
        infos@[c].n_hunks == doc.classes@[c].hunk_ids@.len(),
        infos@[c].rename_gated <==> touches_low_rename(doc, doc.classes@[c]),
        infos@[c].all_generated <==> is_all_generated(doc, doc.classes@[c]),
        forall|f: int|
            0 <= f < doc.files@.len() ==> (texts(infos@[c].files@).contains(
                (#[trigger] doc.files@[f]).path@,
            ) <==> touches(doc, doc.classes@[c], doc.files@[f])),
        forall|x: Seq<char>| #[trigger]
            texts(infos@[c].digests@).contains(x) <==> exists|h: int|
                0 <= h < doc.hunks@.len() && texts(doc.classes@[c].hunk_ids@).contains(
                    (#[trigger] doc.hunks@[h]).id@,
                ) && doc.hunks@[h].digest@ == x,
        infos@[c].exemplar < doc.hunks@.len() && doc.hunks@[infos@[c].exemplar as int].id@
            == doc.classes@[c].exemplar@,
{
    let e = doc.classes@[c];
    let info = infos@[c];
    assert(class_resolves(&doc, e));
    assert(describes(info, &doc, e));
    lemma_hunk_names_unique(doc);
    lemma_files(doc, e, info);
    lemma_gate(doc, e, info);
    lemma_generated(doc, e, info);
    lemma_digests(doc, e, info);
    let hn = hunk_names(doc.hunks@);
    lemma_last_pos(hn, e.exemplar@);
    assert(hn[info.exemplar as int] == e.exemplar@);
}

// ---------------------------------------------------------------------------
// Where a class goes

/// Whether a group of the model's answer is the first one that names a class.
pub open spec fn named_first_in(raw: Seq<RawGroup>, g: int, id: Seq<char>) -> bool {
    &&& 0 <= g < raw.len()
    &&& texts(raw[g].classes@).contains(id)
    &&& forall|j: int| 0 <= j < g ==> !texts((#[trigger] raw[j]).classes@).contains(id)
}

/// How a class has to be read. All of it generated: not at all. Rewritten in a move:
/// all of it, whatever the model says. Else as the first group of the model that names
/// it says, and all of it where none does.
pub open spec fn due_effort(doc: PlanDocument, raw: Seq<RawGroup>, c: ClassEntry) -> Effort {
    if is_all_generated(doc, c) {
        Effort::Noise
    } else if touches_low_rename(doc, c) {
        Effort::Focus
    } else if exists|g: int|
        #[trigger] named_first_in(raw, g, c.id@) && raw[g].effort@ == "skim"@ {
        Effort::Skim
    } else {
        Effort::Focus
    }
}

proof fn lemma_mentions(raw: Seq<RawGroup>, id: Seq<char>)
    ensures
        mentions(raw).contains(id) <==> exists|g: int|
            0 <= g < raw.len() && texts((#[trigger] raw[g]).classes@).contains(id),
    decreases raw.len(),
{
    if raw.len() > 0 {
        let p = raw.drop_last();
        lemma_mentions(p, id);
        let a = mentions(p);
        let b = texts(raw.last().classes@);
        if mentions(raw).contains(id) {
            let k = choose|k: int| 0 <= k < mentions(raw).len() && mentions(raw)[k] == id;
            if k < a.len() {
                assert(a[k] == id);
                assert(a.contains(id));
                let g = choose|g: int|
                    0 <= g < p.len() && texts((#[trigger] p[g]).classes@).contains(id);
                assert(raw[g] == p[g]);
            } else {
                assert(b[k - a.len()] == id);
                assert(raw[raw.len() - 1] == raw.last());
            }
        }
        if exists|g: int| 0 <= g < raw.len() && texts((#[trigger] raw[g]).classes@).contains(id) {
            let g = choose|g: int|
                0 <= g < raw.len() && texts((#[trigger] raw[g]).classes@).contains(id);
            if g < p.len() {
                assert(p[g] == raw[g]);
                assert(a.contains(id));
                let k = choose|k: int| 0 <= k < a.len() && a[k] == id;
                assert(mentions(raw)[k] == id);
            } else {
                let k = choose|k: int| 0 <= k < b.len() && b[k] == id;
                assert(mentions(raw)[a.len() + k] == id);
            }
        }
    }
}

proof fn lemma_first_exists(raw: Seq<RawGroup>, id: Seq<char>) -> (g: int)
    requires
        mentions(raw).contains(id),
    ensures
        named_first_in(raw, g, id),
    decreases raw.len(),
{
    lemma_mentions(raw, id);
    let p = raw.drop_last();
    lemma_mentions(p, id);
    if mentions(p).contains(id) {
        let g = lemma_first_exists(p, id);
        assert(raw[g] == p[g]);
        assert forall|j: int| 0 <= j < g implies !texts((#[trigger] raw[j]).classes@).contains(
            id,
        ) by {
            assert(raw[j] == p[j]);
        }
        g
    } else {
        let g = raw.len() - 1;
        let h = choose|h: int|
            0 <= h < raw.len() && texts((#[trigger] raw[h]).classes@).contains(id);
        if h < g {
            assert(p[h] == raw[h]);
        }
        assert forall|j: int| 0 <= j < g implies !texts((#[trigger] raw[j]).classes@).contains(
            id,
        ) by {
            assert(raw[j] == p[j]);
        }
        g
    }
}

proof fn lemma_fresh_has(
    before: Seq<Seq<char>>,
    names: Seq<Seq<char>>,
    ids: Seq<Seq<char>>,
    id: Seq<char>,
)
    requires
        names.contains(id),
        ids.contains(id),
        !before.contains(id),
    ensures
        fresh(before, names, ids).contains(id),
    decreases names.len(),
{
    let p = names.drop_last();
    assert(names =~= p.push(names.last()));
    lemma_push_contains(p, names.last(), id);
    let f = fresh(before, p, ids);
    if p.contains(id) {
        lemma_fresh_has(before, p, ids, id);
        lemma_push_contains(f, names.last(), id);
    } else {
        let m = before + p;
        if m.contains(id) {
            let k = choose|k: int| 0 <= k < m.len() && m[k] == id;
            if k < before.len() {
                assert(before[k] == id);
            } else {
                assert(p[k - before.len()] == id);
            }
        }
        lemma_push_contains(f, names.last(), id);
    }
}

/// The first group that names an offered class keeps it.
proof fn lemma_kept_has(raw: Seq<RawGroup>, ids: Seq<Seq<char>>, g: int, id: Seq<char>) -> (w: int)
    requires
        named_first_in(raw, g, id),
        ids.contains(id),
    ensures
        0 <= w < kept_groups(raw, ids).len(),
        kept_groups(raw, ids)[w].class_ids.contains(id),
        kept_groups(raw, ids)[w].skim == (raw[g].effort@ == "skim"@),
        !kept_groups(raw, ids)[w].backfill,
    decreases raw.len(),
{
    let p = raw.drop_last();
    let before = kept_groups(p, ids);
    let now = kept_groups(raw, ids);
    if g < p.len() {
        assert(p[g] == raw[g]);
        assert forall|j: int| 0 <= j < g implies !texts((#[trigger] p[j]).classes@).contains(
            id,
        ) by {
            assert(raw[j] == p[j]);
        }
        let w = lemma_kept_has(p, ids, g, id);
        assert(now[w] == before[w]);
        w
    } else {
        lemma_mentions(p, id);
        assert(!mentions(p).contains(id)) by {
            if mentions(p).contains(id) {
                let h = choose|h: int|
                    0 <= h < p.len() && texts((#[trigger] p[h]).classes@).contains(id);
                assert(raw[h] == p[h]);
            }
        }
        assert(raw[g] == raw.last());
        lemma_fresh_has(mentions(p), texts(raw.last().classes@), ids, id);
        let f = fresh(mentions(p), texts(raw.last().classes@), ids);
        assert(f.len() > 0);
        now.len() - 1
    }
}

proof fn lemma_omitted_has(ids: Seq<Seq<char>>, m: Seq<Seq<char>>, id: Seq<char>)
    ensures
        omitted(ids, m).contains(id) <==> ids.contains(id) && !m.contains(id),
    decreases ids.len(),
{
    if ids.len() > 0 {
        let p = ids.drop_last();
        lemma_omitted_has(p, m, id);
        assert(ids =~= p.push(ids.last()));
        lemma_push_contains(p, ids.last(), id);
        lemma_push_contains(omitted(p, m), ids.last(), id);
    }
}

proof fn lemma_gated_ids(infos: Seq<ClassInfo>, id: Seq<char>)
    ensures
        gated_ids(infos).contains(id) <==> exists|i: int|
            0 <= i < infos.len() && (#[trigger] infos[i]).rename_gated && infos[i].id@ == id,
    decreases infos.len(),
{
    if infos.len() > 0 {
        let p = infos.drop_last();
        lemma_gated_ids(p, id);
        lemma_push_contains(gated_ids(p), infos.last().id@, id);
        if gated_ids(infos).contains(id) {
            if infos.last().rename_gated && infos.last().id@ == id {
                assert(infos[infos.len() - 1] == infos.last());
            } else {
                let i = choose|i: int|
                    0 <= i < p.len() && (#[trigger] p[i]).rename_gated && p[i].id@ == id;
                assert(infos[i] == p[i]);
            }
        }
        if exists|i: int|
            0 <= i < infos.len() && (#[trigger] infos[i]).rename_gated && infos[i].id@ == id {
            let i = choose|i: int|
                0 <= i < infos.len() && (#[trigger] infos[i]).rename_gated && infos[i].id@ == id;
            if i < p.len() {
                assert(p[i] == infos[i]);
            }
        }
    }
}

proof fn lemma_routed_has(infos: Seq<ClassInfo>, generated: bool, id: Seq<char>)
    ensures
        ids_of(routed(infos, generated)).contains(id) <==> exists|i: int|
            0 <= i < infos.len() && (#[trigger] infos[i]).all_generated == generated
                && infos[i].id@ == id,
    decreases infos.len(),
{
    let now = ids_of(routed(infos, generated));
    if infos.len() > 0 {
        let p = infos.drop_last();
        lemma_routed_has(p, generated, id);
        let was = ids_of(routed(p, generated));
        lemma_push_contains(was, infos.last().id@, id);
        if infos.last().all_generated == generated {
            assert(now =~= was.push(infos.last().id@));
        } else {
            assert(now =~= was);
        }
        if now.contains(id) {
            if infos.last().all_generated == generated && infos.last().id@ == id {
                assert(infos[infos.len() - 1] == infos.last());
            } else {
                let i = choose|i: int|
                    0 <= i < p.len() && (#[trigger] p[i]).all_generated == generated && p[i].id@
                        == id;
                assert(infos[i] == p[i]);
            }
        }
        if exists|i: int|
            0 <= i < infos.len() && (#[trigger] infos[i]).all_generated == generated
                && infos[i].id@ == id {
            let i = choose|i: int|
                0 <= i < infos.len() && (#[trigger] infos[i]).all_generated == generated
                    && infos[i].id@ == id;
            if i < p.len() {
                assert(p[i] == infos[i]);
            }
        }
    } else {
        assert(now.len() == 0);
    }
}

proof fn lemma_sifted_has(ids: Seq<Seq<char>>, list: Seq<Seq<char>>, inside: bool, id: Seq<char>)
    ensures
        sifted(ids, list, inside).contains(id) <==> ids.contains(id) && list.contains(id) == inside,
    decreases ids.len(),
{
    if ids.len() > 0 {
        let p = ids.drop_last();
        lemma_sifted_has(p, list, inside, id);
        assert(ids =~= p.push(ids.last()));
        lemma_push_contains(p, ids.last(), id);
        lemma_push_contains(sifted(p, list, inside), ids.last(), id);
    }
}

/// A class that is not held back stays in its group.
proof fn lemma_ungated_has(
    groups: Seq<WorkGroupView>,
    gated: Seq<Seq<char>>,
    w: int,
    id: Seq<char>,
) -> (v: int)
    requires
        0 <= w < groups.len(),
        groups[w].class_ids.contains(id),
        !groups[w].skim || !gated.contains(id),
    ensures
        0 <= v < ungated_groups(groups, gated).len(),
        ungated_groups(groups, gated)[v].class_ids.contains(id),
        ungated_groups(groups, gated)[v].skim == groups[w].skim,
        ungated_groups(groups, gated)[v].backfill == groups[w].backfill,
    decreases groups.len(),
{
    let p = groups.drop_last();
    let before = ungated_groups(p, gated);
    let now = ungated_groups(groups, gated);
    if w < p.len() {
        assert(p[w] == groups[w]);
        let v = lemma_ungated_has(p, gated, w, id);
        assert(now[v] == before[v]);
        v
    } else {
        assert(groups[w] == groups.last());
        lemma_sifted_has(groups.last().class_ids, gated, false, id);
        let g = ungated(groups.last(), gated);
        assert(g.class_ids.contains(id));
        now.len() - 1
    }
}

/// A class that is held back leaves its skim group.
proof fn lemma_extracted_has(
    groups: Seq<WorkGroupView>,
    gated: Seq<Seq<char>>,
    w: int,
    id: Seq<char>,
)
    requires
        0 <= w < groups.len(),
        groups[w].class_ids.contains(id),
        groups[w].skim,
        gated.contains(id),
    ensures
        extracted(groups, gated).contains(id),
    decreases groups.len(),
{
    let p = groups.drop_last();
    let a = extracted(p, gated);
    let all = extracted(groups, gated);
    if w < p.len() {
        assert(p[w] == groups[w]);
        lemma_extracted_has(p, gated, w, id);
        let k = choose|k: int| 0 <= k < a.len() && a[k] == id;
        assert(all[k] == id);
    } else {
        assert(groups[w] == groups.last());
        let b = sifted(groups.last().class_ids, gated, true);
        lemma_sifted_has(groups.last().class_ids, gated, true, id);
        let k = choose|k: int| 0 <= k < b.len() && b[k] == id;
        assert(all[a.len() + k] == id);
    }
}

proof fn lemma_tier_has(groups: Seq<WorkGroupView>, w: int) -> (v: int)
    requires
        0 <= w < groups.len(),
    ensures
        0 <= v < in_tier(groups, tier_of(groups[w])).len(),
        in_tier(groups, tier_of(groups[w]))[v] == groups[w],
    decreases groups.len(),
{
    let p = groups.drop_last();
    let t = tier_of(groups[w]);
    if w < p.len() {
        assert(p[w] == groups[w]);
        let v = lemma_tier_has(p, w);
        assert(in_tier(groups, t)[v] == in_tier(p, t)[v]);
        v
    } else {
        assert(groups[w] == groups.last());
        in_tier(groups, t).len() - 1
    }
}

/// A group of the stage stands in the reading order, with the effort of its tier.
proof fn lemma_tiers_have(
    groups: Seq<WorkGroupView>,
    noise: Seq<Seq<char>>,
    infos: Seq<ClassInfo>,
    w: int,
) -> (v: int)
    requires
        0 <= w < groups.len() <= usize::MAX,
    ensures
        0 <= v < tiers(groups, noise, infos).len(),
        tiers(groups, noise, infos)[v].0 == groups[w],
        tiers(groups, noise, infos)[v].1 == (if groups[w].skim && !groups[w].backfill {
            Effort::Skim
        } else {
            Effort::Focus
        }),
{
    let t = tier_of(groups[w]);
    let at = lemma_tier_has(groups, w);
    let a = tagged(in_tier(groups, Tier::Focus), Effort::Focus);
    let b = tagged(skim_order(groups, infos), Effort::Skim);
    let c = if noise.len() > 0 {
        seq![(noise_group(noise), Effort::Noise)]
    } else {
        Seq::empty()
    };
    let d = tagged(in_tier(groups, Tier::Backfill), Effort::Focus);
    let all = tiers(groups, noise, infos);
    assert(all =~= a + b + c + d);
    super::assemble::lemma_tier_len(groups, Tier::Skim);
    match t {
        Tier::Focus => {
            assert(all[at] == a[at]);
            at
        },
        Tier::Skim => {
            let skims = in_tier(groups, Tier::Skim);
            let more = |a: WorkGroupView, b: WorkGroupView|
                super::assemble::hunks_in(infos, a.class_ids) > super::assemble::hunks_in(
                    infos,
                    b.class_ids,
                );
            assert(is_order(skims.len() as int, |i: int, j: int| more(skims[i], skims[j])));
            lemma_sorted_multiset(skims, more);
            let order = skim_order(groups, infos);
            order.to_multiset_ensures();
            skims.to_multiset_ensures();
            assert(skims.contains(groups[w]));
            assert(skims.to_multiset().count(groups[w]) > 0);
            assert(order.contains(groups[w]));
            let k = choose|k: int| 0 <= k < order.len() && order[k] == groups[w];
            assert(all[a.len() + k] == b[k]);
            a.len() + k
        },
        Tier::Backfill => {
            assert(all[a.len() + b.len() + c.len() + at] == d[at]);
            a.len() + b.len() + c.len() + at
        },
    }
}

/// A class stands in a group of the reading order with the effort that it is due.
proof fn lemma_item_with_effort(
    infos: Seq<ClassInfo>,
    raw: Seq<RawGroup>,
    i: int,
) -> (v: int)
    requires
        groupable(infos),
        0 <= i < infos.len(),
        final_groups(infos, raw).len() <= usize::MAX,
    ensures
        0 <= v < plan_items(infos, raw).len(),
        plan_items(infos, raw)[v].0.class_ids.contains(infos[i].id@),
        plan_items(infos, raw)[v].1 == (if infos[i].all_generated {
            Effort::Noise
        } else if infos[i].rename_gated {
            Effort::Focus
        } else if exists|g: int|
            #[trigger] named_first_in(raw, g, infos[i].id@) && raw[g].effort@ == "skim"@ {
            Effort::Skim
        } else {
            Effort::Focus
        }),
{
    let id = infos[i].id@;
    let noise = ids_of(routed(infos, true));
    let ids = ids_of(routed(infos, false));
    let groups = final_groups(infos, raw);
    let items = plan_items(infos, raw);
    let gated = gated_ids(infos);
    lemma_routed_has(infos, true, id);
    lemma_routed_has(infos, false, id);
    lemma_gated_ids(infos, id);
    let names = info_names(infos);
    assert forall|j: int| 0 <= j < infos.len() && (#[trigger] infos[j]).id@ == id implies j == i by {
        assert(names[j] == names[i]);
    }
    if infos[i].all_generated {
        assert(noise.contains(id));
        let a = tagged(in_tier(groups, Tier::Focus), Effort::Focus);
        let b = tagged(skim_order(groups, infos), Effort::Skim);
        let c = seq![(noise_group(noise), Effort::Noise)];
        let d = tagged(in_tier(groups, Tier::Backfill), Effort::Focus);
        assert(items =~= a + b + c + d);
        let v = (a.len() + b.len()) as int;
        assert(items[v] == c[0]);
        v
    } else {
        assert(ids.contains(id));
        let audited = audited_groups(raw, ids);
        let missing = omitted(ids, mentions(raw));
        let kept = kept_groups(raw, ids);
        lemma_omitted_has(ids, mentions(raw), id);
        let w = if mentions(raw).contains(id) {
            let g = lemma_first_exists(raw, id);
            let w = lemma_kept_has(raw, ids, g, id);
            assert(audited[w] == kept[w]);
            assert forall|h: int| #[trigger] named_first_in(raw, h, id) implies h == g by {
                if h < g {
                    assert(!texts(raw[h].classes@).contains(id));
                }
                if g < h {
                    assert(!texts(raw[g].classes@).contains(id));
                }
            }
            w
        } else {
            assert(missing.len() > 0);
            lemma_mentions(raw, id);
            audited.len() - 1
        };
        let g = audited[w];
        assert(g.class_ids.contains(id));
        let named_skim = exists|g: int|
            #[trigger] named_first_in(raw, g, id) && raw[g].effort@ == "skim"@;
        assert(g.skim == named_skim);
        let u = ungated_groups(audited, gated);
        let x = if gated.len() == 0 {
            w
        } else if g.skim && gated.contains(id) {
            lemma_extracted_has(audited, gated, w, id);
            assert(extracted(audited, gated).len() > 0);
            assert(groups[groups.len() - 1] == moved_group(extracted(audited, gated)));
            groups.len() - 1
        } else {
            let x = lemma_ungated_has(audited, gated, w, id);
            assert(groups[x] == u[x]);
            x
        };
        assert(groups[x].class_ids.contains(id));
        let v = lemma_tiers_have(groups, noise, infos, x);
        v
    }
}

/// The groups of a document that was grouped are those of the reading order.
proof fn lemma_groups_are_items(
    doc: PlanDocument,
    infos: Seq<ClassInfo>,
    raw: Seq<RawGroup>,
    r: PlanDocument,
)
    requires
        is_grouped(doc, infos, raw, r),
    ensures
        r.groups is Some,
        r.groups->0@.len() == plan_items(infos, raw).len(),
        forall|g: int|
            0 <= g < r.groups->0@.len() ==> texts((#[trigger] r.groups->0@[g]).class_ids@)
                == plan_items(infos, raw)[g].0.class_ids && r.groups->0@[g].effort == plan_items(
                infos,
                raw,
            )[g].1,
{
    let groups = r.groups->0@;
    let items = plan_items(infos, raw);
    let listed = Seq::new(items.len(), |k: int| super::assemble::group_at(k as nat, items[k]));
    assert(group_views(groups) == listed);
    assert(group_views(groups).len() == groups.len());
    assert(listed.len() == items.len());
    assert forall|g: int| 0 <= g < groups.len() implies texts((#[trigger] groups[g]).class_ids@)
        == items[g].0.class_ids && groups[g].effort == items[g].1 by {
        assert(group_views(groups)[g] == groups[g]@);
        assert(listed[g] == super::assemble::group_at(g as nat, items[g]));
    }
}

/// A class that two groups carry, or one of them twice, is repeated.
proof fn lemma_carried_once(groups: Seq<WorkGroupView>, g: int, i: int, h: int, j: int)
    requires
        carried(groups).no_duplicates(),
        0 <= g < groups.len(),
        0 <= h < groups.len(),
        0 <= i < groups[g].class_ids.len(),
        0 <= j < groups[h].class_ids.len(),
        groups[g].class_ids[i] == groups[h].class_ids[j],
    ensures
        g == h,
        i == j,
    decreases groups.len(),
{
    let p = groups.drop_last();
    let first = carried(p);
    let last = groups.last().class_ids;
    let all = carried(groups);
    assert(all == first + last);
    assert forall|x: int, y: int| 0 <= x < y < first.len() implies first[x] != first[y] by {
        assert(all[x] == first[x] && all[y] == first[y]);
    }
    let n = groups.len() - 1;
    if g < n && h < n {
        assert(p[g] == groups[g] && p[h] == groups[h]);
        lemma_carried_once(p, g, i, h, j);
    } else if g == n && h == n {
        assert(all[first.len() + i] == last[i]);
        assert(all[first.len() + j] == last[j]);
    } else {
        let (a, x, y) = if g < n {
            (g, i, j)
        } else {
            (h, j, i)
        };
        assert(p[a] == groups[a]);
        lemma_group_of_carried(p, a);
        assert(first.contains(p[a].class_ids[x]));
        let q = choose|q: int| 0 <= q < first.len() && first[q] == p[a].class_ids[x];
        assert(all[q] == first[q]);
        assert(all[first.len() + y] == last[y]);
    }
}

/// A document that was grouped carries every class in one group and one place, and no
/// group carries anything else.
pub proof fn law_every_class_has_one_group(
    doc: PlanDocument,
    infos: Vec<ClassInfo>,
    raw: RawGroups,
    r: PlanDocument,
    c: int,
)
    requires
        groupable(infos@),
        call_ensures(run, (doc, &infos, raw), r),
        0 <= c < infos@.len(),
    ensures
        r.groups is Some,
        exists|g: int|
            0 <= g < r.groups->0@.len() && texts((#[trigger] r.groups->0@[g]).class_ids@).contains(
                infos@[c].id@,
            ),
        forall|g: int, i: int, h: int, j: int|
            0 <= g < r.groups->0@.len() && 0 <= h < r.groups->0@.len() && 0 <= i
                < r.groups->0@[g].class_ids@.len() && 0 <= j < r.groups->0@[h].class_ids@.len() && (
            #[trigger] r.groups->0@[g].class_ids@[i])@ == (
            #[trigger] r.groups->0@[h].class_ids@[j])@ ==> g == h && i == j,
        forall|g: int, i: int|
            0 <= g < r.groups->0@.len() && 0 <= i < r.groups->0@[g].class_ids@.len()
                ==> exists|k: int|
                0 <= k < infos@.len() && (#[trigger] infos@[k]).id@ == (
                #[trigger] r.groups->0@[g].class_ids@[i])@,
{
    let groups = r.groups->0@;
    let items = plan_items(infos@, raw.groups@);
    assert(is_grouped(doc, infos@, raw.groups@, r));
    lemma_groups_are_items(doc, infos@, raw.groups@, r);
    law_every_class_is_in_one_group(infos@, raw.groups@);
    let names = info_names(infos@);
    let all = carried(bare(items));
    lemma_same_items(names, all);
    let v = lemma_item_with_effort(infos@, raw.groups@, c);
    assert(texts(groups[v].class_ids@).contains(infos@[c].id@));
    assert(bare(items).len() == groups.len());
    assert forall|g: int, i: int, h: int, j: int|
        0 <= g < groups.len() && 0 <= h < groups.len() && 0 <= i < groups[g].class_ids@.len() && 0
            <= j < groups[h].class_ids@.len() && (#[trigger] groups[g].class_ids@[i])@ == (
        #[trigger] groups[h].class_ids@[j])@ implies g == h && i == j by {
        assert(texts(groups[g].class_ids@)[i] == bare(items)[g].class_ids[i]);
        assert(texts(groups[h].class_ids@)[j] == bare(items)[h].class_ids[j]);
        assert(texts(groups[g].class_ids@).len() == groups[g].class_ids@.len());
        assert(texts(groups[h].class_ids@).len() == groups[h].class_ids@.len());
        lemma_carried_once(bare(items), g, i, h, j);
    }
    assert forall|g: int, i: int|
        0 <= g < groups.len() && 0 <= i < groups[g].class_ids@.len() implies exists|k: int|
        0 <= k < infos@.len() && (#[trigger] infos@[k]).id@ == (
        #[trigger] groups[g].class_ids@[i])@ by {
        assert(texts(groups[g].class_ids@).len() == groups[g].class_ids@.len());
        assert(texts(groups[g].class_ids@)[i] == bare(items)[g].class_ids[i]);
        lemma_group_of_carried(bare(items), g);
        let x = bare(items)[g].class_ids[i];
        assert(all.contains(x));
        assert(names.contains(x));
        let k = choose|k: int| 0 <= k < names.len() && names[k] == x;
        assert(infos@[k].id@ == groups[g].class_ids@[i]@);
    }
}

/// Every class is read as it must be, whatever the model answers: each group that
/// carries it has the effort that it is due. A class with a member in a file that was
/// renamed with less than 95 percent kept is in no skim group.
pub proof fn law_every_class_is_read_as_due(
    doc: PlanDocument,
    infos: Vec<ClassInfo>,
    raw: RawGroups,
    r: PlanDocument,
    c: int,
    g: int,
)
    requires
        consistent(&doc),
        names_are_unique(doc),
        groupable(infos@),
        call_ensures(class_infos, (&doc,), infos),
        call_ensures(run, (doc, &infos, raw), r),
        r.groups is Some,
        0 <= c < doc.classes@.len(),
        0 <= g < r.groups->0@.len(),
        texts(r.groups->0@[g].class_ids@).contains(doc.classes@[c].id@),
    ensures
        r.groups->0@[g].effort == due_effort(doc, raw.groups@, doc.classes@[c]),
        touches_low_rename(doc, doc.classes@[c]) ==> r.groups->0@[g].effort != Effort::Skim,
{
    let groups = r.groups->0@;
    let items = plan_items(infos@, raw.groups@);
    assert(is_grouped(doc, infos@, raw.groups@, r));
    lemma_groups_are_items(doc, infos@, raw.groups@, r);
    law_infos_say_what_the_document_says(doc, infos, c);
    law_every_class_has_one_group(doc, infos, raw, r, c);
    let id = doc.classes@[c].id@;
    let v = lemma_item_with_effort(infos@, raw.groups@, c);
    let a = texts(groups[g].class_ids@);
    let b = texts(groups[v].class_ids@);
    let i = choose|i: int| 0 <= i < a.len() && a[i] == id;
    let j = choose|j: int| 0 <= j < b.len() && b[j] == id;
    assert(groups[g].class_ids@[i]@ == id && groups[v].class_ids@[j]@ == id);
    assert(a.len() == groups[g].class_ids@.len() && b.len() == groups[v].class_ids@.len());
    assert(g == v);
}

} // verus!
