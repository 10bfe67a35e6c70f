//! The grouping stage: a model merges and labels shape-class ids, never hunks,
//! with a coverage audit that back-fills anything the model drops.
//!
//! Mechanical pieces the model never sees or cannot override:
//! - classes living entirely in generated files are assigned to the noise tier
//!   and never offered;
//! - classes touching a rename below the relocation threshold can never stay in
//!   a skim group: they are extracted into a focus group of their own.
use vstd::prelude::*;

use crate::schema::{group_views, lemma_last_pos, step_views, PlanDocument};
use crate::seqs::{lemma_push_contains, texts};
use crate::text::contains_text;

pub mod assemble;
pub mod coverage;
pub mod fetch;
pub mod gate;
pub mod infos;
pub mod key;
pub mod laws;
pub mod parse;
pub mod payload;
pub mod reading;
pub mod stage;

use assemble::info_names;
use parse::{RawGroup, RawGroups};

verus! {

/// Everything the stage needs to know about one shape class.
#[derive(Debug, Clone)]
pub struct ClassInfo {
    pub id: String,
    pub n_hunks: usize,
    /// Sorted unique file paths touched by members.
    pub files: Vec<String>,
    pub kind: char,
    /// Exemplar hunk index.
    pub exemplar: usize,
    /// Every member hunk lives in a generated file: noise tier.
    pub all_generated: bool,
    /// Some member touches a rename below the relocation threshold.
    pub rename_gated: bool,
    /// "renamed from <old>, <sim>% similar".
    pub rename_note: Option<String>,
    /// Sorted member digests, for the cache key.
    pub digests: Vec<String>,
}

/// A group between audit and assembly.
#[derive(Debug, Clone, PartialEq)]
pub struct WorkGroup {
    pub label: String,
    pub description: String,
    pub reason: String,
    pub skim: bool,
    pub class_ids: Vec<String>,
    pub backfill: bool,
}

/// What a work group says.
pub struct WorkGroupView {
    pub label: Seq<char>,
    pub description: Seq<char>,
    pub reason: Seq<char>,
    pub skim: bool,
    pub class_ids: Seq<Seq<char>>,
    pub backfill: bool,
}

impl View for WorkGroup {
    type V = WorkGroupView;

    open spec fn view(&self) -> WorkGroupView {
        WorkGroupView {
            label: self.label@,
            description: self.description@,
            reason: self.reason@,
            skim: self.skim,
            class_ids: texts(self.class_ids@),
            backfill: self.backfill,
        }
    }
}

pub open spec fn work_views(groups: Seq<WorkGroup>) -> Seq<WorkGroupView> {
    groups.map_values(|g: WorkGroup| g@)
}

/// What the audit found.
#[derive(Debug, Clone, PartialEq)]
pub struct Audited {
    pub groups: Vec<WorkGroup>,
    pub missing: Vec<String>,
    pub dupes: Vec<String>,
    pub halluc: Vec<String>,
    /// Hunks of the classes that the model assigned, before the back-fill.
    pub assigned_hunks: usize,
    /// Hunks of the classes that were offered.
    pub offered_hunks: usize,
}

/// The similarity below which a renamed file was rewritten, not relocated.
pub const RELOCATION_THRESHOLD: u8 = 95;

/// The ids of the offered classes.
pub open spec fn ids_of(offered: Seq<&ClassInfo>) -> Seq<Seq<char>> {
    Seq::new(offered.len(), |i: int| offered[i].id@)
}

/// Every class id that the model names, in order, repetitions included.
pub open spec fn mentions(groups: Seq<RawGroup>) -> Seq<Seq<char>>
    decreases groups.len(),
{
    if groups.len() == 0 {
        Seq::empty()
    } else {
        mentions(groups.drop_last()) + texts(groups.last().classes@)
    }
}

/// The named ids that were offered, each once, in order of first mention.
pub open spec fn claimed(m: Seq<Seq<char>>, ids: Seq<Seq<char>>) -> Seq<Seq<char>>
    decreases m.len(),
{
    if m.len() == 0 {
        Seq::empty()
    } else {
        let before = claimed(m.drop_last(), ids);
        if ids.contains(m.last()) && !m.drop_last().contains(m.last()) {
            before.push(m.last())
        } else {
            before
        }
    }
}

/// The named ids that were not offered, each once, in order of first mention.
pub open spec fn unknown(m: Seq<Seq<char>>, ids: Seq<Seq<char>>) -> Seq<Seq<char>>
    decreases m.len(),
{
    if m.len() == 0 {
        Seq::empty()
    } else {
        let before = unknown(m.drop_last(), ids);
        if !ids.contains(m.last()) && !before.contains(m.last()) {
            before.push(m.last())
        } else {
            before
        }
    }
}

/// The offered ids that were named again, each once, in order of the first
/// repetition.
pub open spec fn repeated(m: Seq<Seq<char>>, ids: Seq<Seq<char>>) -> Seq<Seq<char>>
    decreases m.len(),
{
    if m.len() == 0 {
        Seq::empty()
    } else {
        let before = repeated(m.drop_last(), ids);
        if ids.contains(m.last()) && m.drop_last().contains(m.last()) && !before.contains(m.last()) {
            before.push(m.last())
        } else {
            before
        }
    }
}

/// The ids of one group that were offered and are named here for the first time.
pub open spec fn fresh(
    before: Seq<Seq<char>>,
    names: Seq<Seq<char>>,
    ids: Seq<Seq<char>>,
) -> Seq<Seq<char>>
    decreases names.len(),
{
    if names.len() == 0 {
        Seq::empty()
    } else {
        let f = fresh(before, names.drop_last(), ids);
        let m = before + names.drop_last();
        if ids.contains(names.last()) && !m.contains(names.last()) {
            f.push(names.last())
        } else {
            f
        }
    }
}

/// The model's groups with what each keeps; a group that keeps nothing is
/// dropped.
pub open spec fn kept_groups(groups: Seq<RawGroup>, ids: Seq<Seq<char>>) -> Seq<WorkGroupView>
    decreases groups.len(),
{
    if groups.len() == 0 {
        Seq::empty()
    } else {
        let before = kept_groups(groups.drop_last(), ids);
        let g = groups.last();
        let f = fresh(mentions(groups.drop_last()), texts(g.classes@), ids);
        if f.len() == 0 {
            before
        } else {
            before.push(
                WorkGroupView {
                    label: g.label@,
                    description: g.description@,
                    reason: g.reason@,
                    skim: g.effort@ == "skim"@,
                    class_ids: f,
                    backfill: false,
                },
            )
        }
    }
}

/// The offered ids that no group names, in the order offered.
pub open spec fn omitted(ids: Seq<Seq<char>>, m: Seq<Seq<char>>) -> Seq<Seq<char>>
    decreases ids.len(),
{
    if ids.len() == 0 {
        Seq::empty()
    } else if m.contains(ids.last()) {
        omitted(ids.drop_last(), m)
    } else {
        omitted(ids.drop_last(), m).push(ids.last())
    }
}

/// The group that carries what the model left out.
pub open spec fn backfill_group(missing: Seq<Seq<char>>) -> WorkGroupView {
    WorkGroupView {
        label: "Carried by no group"@,
        description: "Classes the model omitted; recovered by the coverage audit."@,
        reason: "Not triaged — must be read."@,
        skim: false,
        class_ids: missing,
        backfill: true,
    }
}

/// The groups after the audit: the model's, then the back-fill where something
/// is missing.
pub open spec fn audited_groups(groups: Seq<RawGroup>, ids: Seq<Seq<char>>) -> Seq<WorkGroupView> {
    let missing = omitted(ids, mentions(groups));
    if missing.len() == 0 {
        kept_groups(groups, ids)
    } else {
        kept_groups(groups, ids).push(backfill_group(missing))
    }
}

/// The hunks of all the classes.
pub open spec fn total_hunks(offered: Seq<&ClassInfo>) -> nat
    decreases offered.len(),
{
    if offered.len() == 0 {
        0
    } else {
        total_hunks(offered.drop_last()) + offered.last().n_hunks as nat
    }
}

/// The hunks of the classes that are named.
pub open spec fn named_hunks(offered: Seq<&ClassInfo>, m: Seq<Seq<char>>) -> nat
    decreases offered.len(),
{
    if offered.len() == 0 {
        0
    } else {
        named_hunks(offered.drop_last(), m) + if m.contains(offered.last().id@) {
            offered.last().n_hunks as nat
        } else {
            0
        }
    }
}

/// The coverage audit: an omitted id is detected and back-filled, never lost; a
/// repeated one stays where it was named first; an id that was never offered is
/// dropped.
pub fn audit(raw: RawGroups, offered: &[&ClassInfo]) -> (r: Audited)
    requires
        total_hunks(offered@) <= usize::MAX,
    ensures
        work_views(r.groups@) == audited_groups(raw.groups@, ids_of(offered@)),
        texts(r.missing@) == omitted(ids_of(offered@), mentions(raw.groups@)),
        texts(r.dupes@) == repeated(mentions(raw.groups@), ids_of(offered@)),
        texts(r.halluc@) == unknown(mentions(raw.groups@), ids_of(offered@)),
        r.offered_hunks == total_hunks(offered@),
        r.assigned_hunks == named_hunks(offered@, mentions(raw.groups@)),
{
    let ghost ids = ids_of(offered@);
    let mut named: Vec<String> = Vec::new();
    let mut dupes: Vec<String> = Vec::new();
    let mut halluc: Vec<String> = Vec::new();
    let mut groups: Vec<WorkGroup> = Vec::new();
    proof {
        assert(texts(named@) =~= mentions(raw.groups@.take(0)));
        assert(texts(dupes@) =~= repeated(mentions(raw.groups@.take(0)), ids));
        assert(texts(halluc@) =~= unknown(mentions(raw.groups@.take(0)), ids));
        assert(work_views(groups@) =~= kept_groups(raw.groups@.take(0), ids));
    }
    for gi in 0..raw.groups.len()
        invariant
            ids == ids_of(offered@),
            texts(named@) == mentions(raw.groups@.take(gi as int)),
            texts(dupes@) == repeated(texts(named@), ids),
            texts(halluc@) == unknown(texts(named@), ids),
            work_views(groups@) == kept_groups(raw.groups@.take(gi as int), ids),
    {
        let g = &raw.groups[gi];
        let ghost before = texts(named@);
        let ghost names = texts(g.classes@);
        proof {
            assert(raw.groups@.take(gi + 1).drop_last() =~= raw.groups@.take(gi as int));
            assert(raw.groups@.take(gi + 1).last() == *g);
            assert(before + names.take(0) =~= before);
        }
        let mut kept: Vec<String> = Vec::new();
        assert(texts(kept@) =~= fresh(before, names.take(0), ids));
        for ci in 0..g.classes.len()
            invariant
                ids == ids_of(offered@),
                names == texts(g.classes@),
                texts(named@) == before + names.take(ci as int),
                texts(dupes@) == repeated(texts(named@), ids),
                texts(halluc@) == unknown(texts(named@), ids),
                texts(kept@) == fresh(before, names.take(ci as int), ids),
        {
            let cid = g.classes[ci].clone();
            let ghost m = texts(named@);
            proof {
                assert(names.take(ci + 1).drop_last() =~= names.take(ci as int));
                assert(names.take(ci + 1).last() == cid@);
                assert(m.push(cid@).drop_last() =~= m);
                assert(m.push(cid@) =~= before + names.take(ci + 1));
            }
            let again = contains_text(&named, &cid);
            if !is_offered(offered, &cid) {
                if !contains_text(&halluc, &cid) {
                    let ghost had = texts(halluc@);
                    halluc.push(cid.clone());
                    assert(texts(halluc@) =~= had.push(cid@));
                }
            } else if again {
                if !contains_text(&dupes, &cid) {
                    let ghost had = texts(dupes@);
                    dupes.push(cid.clone());
                    assert(texts(dupes@) =~= had.push(cid@));
                }
            } else {
                let ghost had = texts(kept@);
                kept.push(cid.clone());
                assert(texts(kept@) =~= had.push(cid@));
            }
            named.push(cid);
            assert(texts(named@) =~= m.push(cid@));
        }
        assert(names.take(names.len() as int) =~= names);
        if kept.len() > 0 {
            let ghost had = work_views(groups@);
            let work = WorkGroup {
                label: g.label.clone(),
                description: g.description.clone(),
                reason: g.reason.clone(),
                skim: crate::text::str_eq(&g.effort, "skim"),
                class_ids: kept,
                backfill: false,
            };
            let ghost made = work@;
            groups.push(work);
            assert(work_views(groups@) =~= had.push(made));
        }
    }
    assert(raw.groups@.take(raw.groups@.len() as int) =~= raw.groups@);

    let mut missing: Vec<String> = Vec::new();
    let mut offered_hunks: usize = 0;
    let mut assigned_hunks: usize = 0;
    let ghost m = mentions(raw.groups@);
    assert(texts(missing@) =~= omitted(ids.take(0), m));
    assert(offered@.take(0) =~= Seq::<&ClassInfo>::empty());
    for i in 0..offered.len()
        invariant
            ids == ids_of(offered@),
            texts(named@) == m,
            total_hunks(offered@) <= usize::MAX,
            texts(missing@) == omitted(ids.take(i as int), m),
            offered_hunks == total_hunks(offered@.take(i as int)),
            assigned_hunks == named_hunks(offered@.take(i as int), m),
            assigned_hunks <= offered_hunks,
    {
        let c = offered[i];
        proof {
            assert(ids.take(i + 1).drop_last() =~= ids.take(i as int));
            assert(offered@.take(i + 1).drop_last() =~= offered@.take(i as int));
            lemma_total_grows(offered@, i + 1);
        }
        offered_hunks = offered_hunks + c.n_hunks;
        if contains_text(&named, &c.id) {
            assigned_hunks = assigned_hunks + c.n_hunks;
        } else {
            let ghost had = texts(missing@);
            missing.push(c.id.clone());
            assert(texts(missing@) =~= had.push(c.id@));
        }
    }
    assert(ids.take(ids.len() as int) =~= ids);
    assert(offered@.take(offered@.len() as int) =~= offered@);
    if missing.len() > 0 {
        let ghost had = work_views(groups@);
        let work = WorkGroup {
            label: "Carried by no group".to_owned(),
            description: "Classes the model omitted; recovered by the coverage audit.".to_owned(),
            reason: "Not triaged — must be read.".to_owned(),
            skim: false,
            class_ids: crate::text::copy_texts(&missing),
            backfill: true,
        };
        let ghost made = work@;
        groups.push(work);
        assert(made =~= backfill_group(texts(missing@)));
        assert(work_views(groups@) =~= had.push(made));
    }
    Audited { groups, missing, dupes, halluc, assigned_hunks, offered_hunks }
}

/// The hunks of some of the classes are no more than those of all.
proof fn lemma_total_grows(offered: Seq<&ClassInfo>, i: int)
    requires
        0 <= i <= offered.len(),
    ensures
        total_hunks(offered.take(i)) <= total_hunks(offered),
    decreases offered.len(),
{
    if i == offered.len() {
        assert(offered.take(i) =~= offered);
    } else {
        lemma_total_grows(offered.drop_last(), i);
        assert(offered.drop_last().take(i) =~= offered.take(i));
    }
}

/// Whether a class was offered.
fn is_offered(offered: &[&ClassInfo], id: &str) -> (r: bool)
    ensures
        r == ids_of(offered@).contains(id@),
{
    for i in 0..offered.len()
        invariant
            forall|j: int| 0 <= j < i ==> ids_of(offered@)[j] != id@,
    {
        if crate::text::str_eq(&offered[i].id, id) {
            assert(ids_of(offered@)[i as int] == id@);
            return true;
        }
    }
    false
}

/// Every class id that the groups carry, in order.
pub open spec fn carried(groups: Seq<WorkGroupView>) -> Seq<Seq<char>>
    decreases groups.len(),
{
    if groups.len() == 0 {
        Seq::empty()
    } else {
        carried(groups.drop_last()) + groups.last().class_ids
    }
}

/// Coverage is total and exact whatever the model answers: the groups after the
/// audit carry every offered class once, and nothing else.
pub proof fn law_audit_covers_every_class_once(groups: Seq<RawGroup>, ids: Seq<Seq<char>>)
    requires
        ids.no_duplicates(),
    ensures
        carried(audited_groups(groups, ids)).no_duplicates(),
        forall|id: Seq<char>|
            carried(audited_groups(groups, ids)).contains(id) <==> #[trigger] ids.contains(id),
{
    let m = mentions(groups);
    let c = claimed(m, ids);
    let o = omitted(ids, m);
    lemma_kept_is_claimed(groups, ids);
    lemma_claimed(m, ids);
    lemma_omitted(ids, m);
    let all = carried(audited_groups(groups, ids));
    if o.len() == 0 {
        assert(all =~= c + o);
    } else {
        let ag = audited_groups(groups, ids);
        assert(ag.drop_last() =~= kept_groups(groups, ids));
        assert(all =~= c + o);
    }
    assert forall|i: int, j: int| 0 <= i < j < all.len() implies all[i] != all[j] by {
        if i < c.len() && j >= c.len() {
            assert(c.contains(c[i]));
            assert(o.contains(o[j - c.len()]));
        }
    }
    assert forall|id: Seq<char>| all.contains(id) <==> #[trigger] ids.contains(id) by {
        if ids.contains(id) {
            if m.contains(id) {
                assert(c.contains(id));
                let k = choose|k: int| 0 <= k < c.len() && c[k] == id;
                assert(all[k] == id);
            } else {
                assert(o.contains(id));
                let k = choose|k: int| 0 <= k < o.len() && o[k] == id;
                assert(all[c.len() + k] == id);
            }
        }
        if all.contains(id) {
            let k = choose|k: int| 0 <= k < all.len() && all[k] == id;
            if k < c.len() {
                assert(c.contains(id));
            } else {
                assert(o[k - c.len()] == id);
                assert(o.contains(id));
            }
        }
    }
}

proof fn lemma_claimed(m: Seq<Seq<char>>, ids: Seq<Seq<char>>)
    ensures
        claimed(m, ids).no_duplicates(),
        forall|x: Seq<char>|
            #[trigger] claimed(m, ids).contains(x) <==> m.contains(x) && ids.contains(x),
    decreases m.len(),
{
    if m.len() > 0 {
        let p = m.drop_last();
        lemma_claimed(p, ids);
        let a = claimed(p, ids);
        let b = claimed(m, ids);
        assert(m =~= p.push(m.last()));
        assert forall|x: Seq<char>| #[trigger] b.contains(x) <==> m.contains(x) && ids.contains(x) by {
            lemma_push_contains(p, m.last(), x);
            lemma_push_contains(a, m.last(), x);
        }
        assert(!p.contains(m.last()) ==> !a.contains(m.last()));
    }
}

proof fn lemma_omitted(ids: Seq<Seq<char>>, m: Seq<Seq<char>>)
    requires
        ids.no_duplicates(),
    ensures
        omitted(ids, m).no_duplicates(),
        forall|x: Seq<char>|
            #[trigger] omitted(ids, m).contains(x) <==> ids.contains(x) && !m.contains(x),
    decreases ids.len(),
{
    if ids.len() > 0 {
        let p = ids.drop_last();
        lemma_omitted(p, m);
        let a = omitted(p, m);
        let b = omitted(ids, m);
        assert(ids =~= p.push(ids.last()));
        assert(!p.contains(ids.last()));
        assert forall|x: Seq<char>| #[trigger] b.contains(x) <==> ids.contains(x) && !m.contains(
            x,
        ) by {
            lemma_push_contains(p, ids.last(), x);
            lemma_push_contains(a, ids.last(), x);
        }
        assert(!a.contains(ids.last()));
    }
}

proof fn lemma_kept_is_claimed(groups: Seq<RawGroup>, ids: Seq<Seq<char>>)
    ensures
        carried(kept_groups(groups, ids)) == claimed(mentions(groups), ids),
    decreases groups.len(),
{
    if groups.len() > 0 {
        let p = groups.drop_last();
        lemma_kept_is_claimed(p, ids);
        let names = texts(groups.last().classes@);
        let before = mentions(p);
        lemma_fresh_extends(before, names, ids);
        let f = fresh(before, names, ids);
        let k = kept_groups(groups, ids);
        if f.len() == 0 {
            assert(claimed(before, ids) + f =~= claimed(before, ids));
        } else {
            assert(k.drop_last() =~= kept_groups(p, ids));
        }
    }
}

proof fn lemma_fresh_extends(before: Seq<Seq<char>>, names: Seq<Seq<char>>, ids: Seq<Seq<char>>)
    ensures
        claimed(before + names, ids) == claimed(before, ids) + fresh(before, names, ids),
    decreases names.len(),
{
    if names.len() == 0 {
        assert(before + names =~= before);
        assert(claimed(before, ids) + fresh(before, names, ids) =~= claimed(before, ids));
    } else {
        lemma_fresh_extends(before, names.drop_last(), ids);
        let m = before + names;
        assert(m.drop_last() =~= before + names.drop_last());
        assert(m.last() == names.last());
        assert(claimed(m, ids) =~= claimed(before, ids) + fresh(before, names, ids));
    }
}

/// The classes that are generated, or those that are not.
pub open spec fn routed<'a>(infos: Seq<ClassInfo>, generated: bool) -> Seq<&'a ClassInfo>
    decreases infos.len(),
{
    if infos.len() == 0 {
        Seq::empty()
    } else if infos.last().all_generated == generated {
        routed(infos.drop_last(), generated).push(&infos.last())
    } else {
        routed(infos.drop_last(), generated)
    }
}

/// The hunks of all classes.
pub open spec fn all_hunks(infos: Seq<ClassInfo>) -> nat
    decreases infos.len(),
{
    if infos.len() == 0 {
        0
    } else {
        all_hunks(infos.drop_last()) + infos.last().n_hunks as nat
    }
}

/// Whether class infos can be grouped: no two share an id, none is empty, and the
/// hunks can be counted.
pub open spec fn groupable(infos: Seq<ClassInfo>) -> bool {
    &&& info_names(infos).no_duplicates()
    &&& forall|i: int| 0 <= i < infos.len() ==> (#[trigger] infos[i]).n_hunks >= 1
    &&& all_hunks(infos) <= usize::MAX
}

/// The classes of one route: the generated ones are folded, the others offered to
/// the model.
pub fn route(infos: &Vec<ClassInfo>, generated: bool) -> (r: Vec<&ClassInfo>)
    ensures
        r@ == routed(infos@, generated),
{
    let mut out: Vec<&ClassInfo> = Vec::new();
    assert(out@ =~= routed(infos@.take(0), generated));
    for i in 0..infos.len()
        invariant
            out@ == routed(infos@.take(i as int), generated),
    {
        assert(infos@.take(i + 1).drop_last() =~= infos@.take(i as int));
        if infos[i].all_generated == generated {
            out.push(&infos[i]);
        }
    }
    assert(infos@.take(infos@.len() as int) =~= infos@);
    out
}

/// The groups that the stage makes of the model's answer: audited and gated. With
/// nothing to offer the model is not asked and there are none.
pub open spec fn final_groups(infos: Seq<ClassInfo>, raw: Seq<RawGroup>) -> Seq<WorkGroupView> {
    let ids = ids_of(routed(infos, false));
    let audited = if ids.len() == 0 {
        Seq::empty()
    } else {
        audited_groups(raw, ids)
    };
    gate::gated_groups(audited, gate::gated_ids(infos))
}

/// Whether a document is another with the groups that an answer comes to.
pub open spec fn is_grouped(
    doc: PlanDocument,
    infos: Seq<ClassInfo>,
    raw: Seq<RawGroup>,
    r: PlanDocument,
) -> bool {
    let offered = routed(infos, false);
    let ids = ids_of(offered);
    let items = assemble::tiers(
        final_groups(infos, raw),
        ids_of(routed(infos, true)),
        infos,
    );
    let m = mentions(raw);
    &&& r.groups matches Some(groups) && group_views(groups@) == Seq::new(
        items.len(),
        |k: int| assemble::group_at(k as nat, items[k]),
    )
    &&& r.reading_plan matches Some(plan) && step_views(plan@) == assemble::all_steps(
        items,
        infos,
    )
    &&& r.audit.read_hunks == Some(assemble::read_total(items, infos) as u32)
    &&& r.audit.skipped_hunks == Some(
        (assemble::hunk_total(items, infos) - assemble::read_total(items, infos)) as u32,
    )
    &&& r.audit.coverage matches Some(c) && c.offered == total_hunks(offered) && c.assigned
        == named_hunks(offered, m)
    &&& r.audit.classes_missing == Some(omitted(ids, m).len() as u32)
    &&& r.audit.classes_duplicated matches Some(d) && texts(d@) == (if ids.len() == 0 {
        Seq::empty()
    } else {
        repeated(m, ids)
    })
    &&& r.audit.classes_hallucinated matches Some(h) && texts(h@) == (if ids.len() == 0 {
        Seq::empty()
    } else {
        unknown(m, ids)
    })
    &&& texts(r.generator.stages@) == texts(doc.generator.stages@).push("group"@)
    &&& r.generator.tool == doc.generator.tool
    &&& r.generator.version == doc.generator.version
    &&& r.schema_version == doc.schema_version
    &&& r.source == doc.source
    &&& r.stats == doc.stats
    &&& r.files == doc.files
    &&& r.hunks == doc.hunks
    &&& r.classes == doc.classes
    &&& r.audit.applier_exact == doc.audit.applier_exact
    &&& r.audit.tree_assertion == doc.audit.tree_assertion
    &&& r.audit.hunks_carried == doc.audit.hunks_carried
    &&& r.audit.recount == doc.audit.recount
    &&& final_groups(infos, raw).len() <= usize::MAX
}

/// Run the grouping stage over a document without groups, with the model's
/// answer at hand.
pub fn run(doc: PlanDocument, infos: &Vec<ClassInfo>, raw: RawGroups) -> (r: PlanDocument)
    requires
        groupable(infos@),
    ensures
        is_grouped(doc, infos@, raw.groups@, r),
{
    let noise = route(infos, true);
    let offered = route(infos, false);
    let ghost ids = ids_of(offered@);
    let ghost m = mentions(raw.groups@);
    proof {
        lemma_routed(infos@, true);
        lemma_routed(infos@, false);
    }
    let mut audited = if offered.len() == 0 {
        let none = Audited {
            groups: Vec::new(),
            missing: Vec::new(),
            dupes: Vec::new(),
            halluc: Vec::new(),
            assigned_hunks: 0,
            offered_hunks: 0,
        };
        assert(work_views(none.groups@) =~= Seq::<WorkGroupView>::empty());
        assert(texts(none.dupes@) =~= Seq::<Seq<char>>::empty());
        assert(texts(none.halluc@) =~= Seq::<Seq<char>>::empty());
        assert(texts(none.missing@) =~= omitted(ids, m));
        none
    } else {
        audit(raw, offered.as_slice())
    };
    let ghost before = work_views(audited.groups@);
    assert(omitted(ids, m).len() == audited.missing@.len());
    audited.groups = gate::apply_relocation_gate(audited.groups, infos.as_slice());
    proof {
        let gated = gate::gated_ids(infos@);
        let after = work_views(audited.groups@);
        lemma_sum_bounded(infos@, ids_of(noise@));
        if ids.len() > 0 {
            law_audit_covers_every_class_once(raw.groups@, ids);
        } else {
            assert(carried(before) =~= Seq::<Seq<char>>::empty());
        }
        gate::law_gate_keeps_every_class(before, gated);
        lemma_same_items(carried(before), carried(after));
        assert(after.len() == audited.groups.len());
        assert forall|k: int| 0 <= k < audited.groups@.len() implies assemble::all_known(
            infos@,
            texts((#[trigger] audited.groups@[k]).class_ids@),
        ) && assemble::hunks_in(infos@, texts(audited.groups@[k].class_ids@)) <= usize::MAX by {
            lemma_group_of_carried(after, k);
            let g = after[k].class_ids;
            assert(g == texts(audited.groups@[k].class_ids@));
            assert forall|i: int| 0 <= i < g.len() implies assemble::hunks_of(
                infos@,
                #[trigger] g[i],
            ) >= 1 by {
                assert(carried(after).contains(g[i]));
                assert(carried(before).contains(g[i]));
                assert(ids.contains(g[i]));
                let q = choose|q: int| 0 <= q < ids.len() && ids[q] == g[i];
                assert(assemble::hunks_of(infos@, ids[q]) >= 1);
            }
            lemma_sum_bounded(infos@, g);
        }
    }
    assemble::assemble(doc, infos.as_slice(), noise.as_slice(), audited)
}

/// The classes of one route are known, distinct, and have no more hunks than all.
proof fn lemma_routed(infos: Seq<ClassInfo>, generated: bool)
    requires
        groupable(infos),
    ensures
        ids_of(routed(infos, generated)).no_duplicates(),
        assemble::all_known(infos, ids_of(routed(infos, generated))),
        total_hunks(routed(infos, generated)) <= all_hunks(infos),
{
    lemma_routed_part(infos, generated);
    let ids = ids_of(routed(infos, generated));
    assert forall|k: int| 0 <= k < ids.len() implies assemble::hunks_of(infos, #[trigger] ids[k])
        >= 1 by {
        let names = info_names(infos);
        assert(names.contains(ids[k]));
        lemma_last_pos(names, ids[k]);
    }
}

pub proof fn lemma_routed_part(infos: Seq<ClassInfo>, generated: bool)
    requires
        info_names(infos).no_duplicates(),
    ensures
        ids_of(routed(infos, generated)).no_duplicates(),
        forall|k: int|
            0 <= k < routed(infos, generated).len() ==> info_names(infos).contains(
                #[trigger] ids_of(routed(infos, generated))[k],
            ),
        total_hunks(routed(infos, generated)) <= all_hunks(infos),
    decreases infos.len(),
{
    if infos.len() > 0 {
        let p = infos.drop_last();
        let names = info_names(infos);
        assert(info_names(p) =~= names.drop_last());
        lemma_routed_part(p, generated);
        let a = routed(p, generated);
        let b = routed(infos, generated);
        assert forall|k: int| 0 <= k < b.len() implies names.contains(#[trigger] ids_of(b)[k]) by {
            if k < a.len() {
                assert(info_names(p).contains(ids_of(a)[k]));
                let q = choose|q: int|
                    0 <= q < info_names(p).len() && info_names(p)[q] == ids_of(a)[k];
                assert(names[q] == ids_of(b)[k]);
            } else {
                assert(names[infos.len() - 1] == ids_of(b)[k]);
            }
        }
        if infos.last().all_generated == generated {
            assert(b.drop_last() =~= a);
            assert forall|i: int, j: int| 0 <= i < j < b.len() implies ids_of(b)[i] != ids_of(
                b,
            )[j] by {
                if j < a.len() {
                    assert(ids_of(a)[i] != ids_of(a)[j]);
                } else {
                    assert(info_names(p).contains(ids_of(a)[i]));
                    let q = choose|q: int|
                        0 <= q < info_names(p).len() && info_names(p)[q] == ids_of(a)[i];
                    assert(names[q] != names[infos.len() - 1]);
                }
            }
        }
    }
}

/// Distinct classes have no more hunks than all classes.
pub proof fn lemma_sum_bounded(infos: Seq<ClassInfo>, ids: Seq<Seq<char>>)
    requires
        info_names(infos).no_duplicates(),
        ids.no_duplicates(),
    ensures
        assemble::hunks_in(infos, ids) <= all_hunks(infos),
    decreases infos.len(),
{
    if infos.len() == 0 {
        lemma_sum_none(infos, ids);
    } else {
        let p = infos.drop_last();
        let x = infos.last().id@;
        let names = info_names(infos);
        assert(info_names(p) =~= names.drop_last());
        if ids.contains(x) {
            let k = choose|k: int| 0 <= k < ids.len() && ids[k] == x;
            let rest = ids.remove(k);
            lemma_sum_remove(infos, ids, k);
            assert(assemble::hunks_of(infos, x) == infos.last().n_hunks);
            assert(!rest.contains(x));
            lemma_sum_shrink(infos, rest);
            lemma_sum_bounded(p, rest);
        } else {
            lemma_sum_shrink(infos, ids);
            lemma_sum_bounded(p, ids);
        }
    }
}

proof fn lemma_sum_none(infos: Seq<ClassInfo>, ids: Seq<Seq<char>>)
    requires
        infos.len() == 0,
    ensures
        assemble::hunks_in(infos, ids) == 0,
    decreases ids.len(),
{
    if ids.len() > 0 {
        lemma_sum_none(infos, ids.drop_last());
    }
}

pub proof fn lemma_sum_remove(infos: Seq<ClassInfo>, ids: Seq<Seq<char>>, k: int)
    requires
        0 <= k < ids.len(),
    ensures
        assemble::hunks_in(infos, ids) == assemble::hunks_in(infos, ids.remove(k))
            + assemble::hunks_of(infos, ids[k]),
    decreases ids.len(),
{
    if k == ids.len() - 1 {
        assert(ids.remove(k) =~= ids.drop_last());
    } else {
        lemma_sum_remove(infos, ids.drop_last(), k);
        assert(ids.remove(k).drop_last() =~= ids.drop_last().remove(k));
        assert(ids.remove(k).last() == ids.last());
    }
}

pub proof fn lemma_sum_shrink(infos: Seq<ClassInfo>, ids: Seq<Seq<char>>)
    requires
        infos.len() > 0,
        !ids.contains(infos.last().id@),
    ensures
        assemble::hunks_in(infos, ids) == assemble::hunks_in(infos.drop_last(), ids),
    decreases ids.len(),
{
    if ids.len() > 0 {
        let q = ids.drop_last();
        assert(!q.contains(infos.last().id@)) by {
            if q.contains(infos.last().id@) {
                let k = choose|k: int| 0 <= k < q.len() && q[k] == infos.last().id@;
                assert(ids[k] == infos.last().id@);
            }
        }
        lemma_sum_shrink(infos, q);
        assert(ids[ids.len() - 1] != infos.last().id@);
        assert(info_names(infos).drop_last() =~= info_names(infos.drop_last()));
        lemma_last_pos(info_names(infos.drop_last()), ids.last());
    }
}

/// Two lists with the same items, each as often, agree on what they hold.
pub proof fn lemma_same_items(a: Seq<Seq<char>>, b: Seq<Seq<char>>)
    requires
        a.to_multiset() == b.to_multiset(),
        a.no_duplicates(),
    ensures
        b.no_duplicates(),
        forall|x: Seq<char>| #[trigger] a.contains(x) <==> b.contains(x),
{
    a.to_multiset_ensures();
    b.to_multiset_ensures();
    a.lemma_multiset_has_no_duplicates();
    b.lemma_multiset_has_no_duplicates_conv();
    assert forall|x: Seq<char>| #[trigger] a.contains(x) <==> b.contains(x) by {
        assert(a.contains(x) <==> a.to_multiset().count(x) > 0);
        assert(b.contains(x) <==> b.to_multiset().count(x) > 0);
    }
}

/// The classes of one group are among those that all groups carry, each once if
/// those are.
pub proof fn lemma_group_of_carried(groups: Seq<WorkGroupView>, k: int)
    requires
        0 <= k < groups.len(),
        carried(groups).no_duplicates(),
    ensures
        groups[k].class_ids.no_duplicates(),
        forall|i: int|
            0 <= i < groups[k].class_ids.len() ==> carried(groups).contains(
                #[trigger] groups[k].class_ids[i],
            ),
    decreases groups.len(),
{
    let p = groups.drop_last();
    let all = carried(groups);
    let first = carried(p);
    let last = groups.last().class_ids;
    assert(all == first + last);
    assert forall|i: int, j: int| 0 <= i < j < first.len() implies first[i] != first[j] by {
        assert(all[i] == first[i] && all[j] == first[j]);
    }
    if k == groups.len() - 1 {
        assert forall|i: int, j: int| 0 <= i < j < last.len() implies last[i] != last[j] by {
            assert(all[first.len() + i] == last[i] && all[first.len() + j] == last[j]);
        }
        assert forall|i: int| 0 <= i < last.len() implies all.contains(#[trigger] last[i]) by {
            assert(all[first.len() + i] == last[i]);
        }
    } else {
        lemma_group_of_carried(p, k);
        assert forall|i: int| 0 <= i < groups[k].class_ids.len() implies all.contains(
            #[trigger] groups[k].class_ids[i],
        ) by {
            assert(first.contains(p[k].class_ids[i]));
            let q = choose|q: int| 0 <= q < first.len() && first[q] == p[k].class_ids[i];
            assert(all[q] == groups[k].class_ids[i]);
        }
    }
}

} // verus!
