//! Turn audited work groups into a document's groups, reading plan and audit
//! fields. The order here is presentation only (focus, skim, noise, back-fill);
//! the foundation-first sort is the ordering stage's job.
use vstd::prelude::*;

use crate::grouping::{work_views, Audited, ClassInfo, WorkGroup, WorkGroupView};
use crate::schema::{
    group_views, last_pos, place, step_views, Coverage, Effort, Group, GroupContent, PlanDocument,
    ReadAction, ReadingStep, Role, StepContent,
};
use crate::seqs::{sorted_by, stable_order, texts};
use crate::text::{copy_texts, decimal, push_decimal, str_eq};

verus! {

/// The ids of class infos.
pub open spec fn info_names(infos: Seq<ClassInfo>) -> Seq<Seq<char>> {
    Seq::new(infos.len(), |i: int| infos[i].id@)
}

/// The number of hunks of a class; none of an unknown one.
pub open spec fn hunks_of(infos: Seq<ClassInfo>, id: Seq<char>) -> nat {
    match last_pos(info_names(infos), id) {
        Some(i) => infos[i].n_hunks as nat,
        None => 0,
    }
}

/// The number of hunks of some classes.
pub open spec fn hunks_in(infos: Seq<ClassInfo>, ids: Seq<Seq<char>>) -> nat
    decreases ids.len(),
{
    if ids.len() == 0 {
        0
    } else {
        hunks_in(infos, ids.drop_last()) + hunks_of(infos, ids.last())
    }
}

/// Whether every class is known and has a hunk.
pub open spec fn all_known(infos: Seq<ClassInfo>, ids: Seq<Seq<char>>) -> bool {
    forall|i: int| 0 <= i < ids.len() ==> hunks_of(infos, #[trigger] ids[i]) >= 1
}

/// Where a work group goes.
#[derive(Debug, Clone, Copy, PartialEq, Eq, Structural)]
pub enum Tier {
    Focus,
    Skim,
    Backfill,
}

pub open spec fn tier_of(g: WorkGroupView) -> Tier {
    if g.backfill {
        Tier::Backfill
    } else if g.skim {
        Tier::Skim
    } else {
        Tier::Focus
    }
}

/// The groups of one tier, in order.
pub open spec fn in_tier(groups: Seq<WorkGroupView>, tier: Tier) -> Seq<WorkGroupView>
    decreases groups.len(),
{
    if groups.len() == 0 {
        Seq::empty()
    } else if tier_of(groups.last()) == tier {
        in_tier(groups.drop_last(), tier).push(groups.last())
    } else {
        in_tier(groups.drop_last(), tier)
    }
}

/// The skim groups, the one with most hunks first.
pub open spec fn skim_order(
    groups: Seq<WorkGroupView>,
    infos: Seq<ClassInfo>,
) -> Seq<WorkGroupView> {
    sorted_by(
        in_tier(groups, Tier::Skim),
        |a: WorkGroupView, b: WorkGroupView|
            hunks_in(infos, a.class_ids) > hunks_in(infos, b.class_ids),
    )
}

/// The folded group of the classes in generated files.
pub open spec fn noise_group(ids: Seq<Seq<char>>) -> WorkGroupView {
    WorkGroupView {
        label: "Generated files"@,
        description:
            "Generated content (lockfiles, snapshots, build artefacts): folded, verified by provenance rather than read."@,
        reason:
            "Every hunk lives in a file marked generated (builtin list, gitattributes, or repo config)."@,
        skim: false,
        class_ids: ids,
        backfill: false,
    }
}

pub open spec fn tagged(groups: Seq<WorkGroupView>, effort: Effort) -> Seq<(WorkGroupView, Effort)> {
    groups.map_values(|g: WorkGroupView| (g, effort))
}

/// All groups in reading order with their effort: focus, skim, noise, back-fill.
pub open spec fn tiers(
    groups: Seq<WorkGroupView>,
    noise: Seq<Seq<char>>,
    infos: Seq<ClassInfo>,
) -> Seq<(WorkGroupView, Effort)> {
    tagged(in_tier(groups, Tier::Focus), Effort::Focus) + tagged(
        skim_order(groups, infos),
        Effort::Skim,
    ) + (if noise.len() > 0 {
        seq![(noise_group(noise), Effort::Noise)]
    } else {
        Seq::empty()
    }) + tagged(in_tier(groups, Tier::Backfill), Effort::Focus)
}

/// The id of the group at a place.
pub open spec fn group_id(k: nat) -> Seq<char> {
    seq!['g'] + decimal(k)
}

/// The document's group for a place in the reading order.
pub open spec fn group_at(k: nat, item: (WorkGroupView, Effort)) -> GroupContent {
    GroupContent {
        id: group_id(k),
        label: item.0.label,
        description: item.0.description,
        reason: item.0.reason,
        effort: item.1,
        role: if item.1 == Effort::Noise {
            Some(Role::Noise)
        } else {
            None
        },
        class_ids: item.0.class_ids,
        depends_on: Seq::empty(),
        rank: k as u32,
    }
}

pub open spec fn step_of(k: nat, action: ReadAction) -> StepContent {
    StepContent { group: group_id(k), action }
}

/// What a reader does with a group: a focus group is read; of a skim group the
/// exemplars are read, one per class, and the remainder is skipped; noise is
/// folded.
pub open spec fn steps_at(
    k: nat,
    item: (WorkGroupView, Effort),
    infos: Seq<ClassInfo>,
) -> Seq<StepContent> {
    match item.1 {
        Effort::Focus => seq![step_of(k, ReadAction::Read)],
        Effort::Skim => if hunks_in(infos, item.0.class_ids) > item.0.class_ids.len() {
            seq![step_of(k, ReadAction::Exemplars), step_of(k, ReadAction::Skip)]
        } else {
            seq![step_of(k, ReadAction::Exemplars)]
        },
        Effort::Noise => seq![step_of(k, ReadAction::Fold)],
    }
}

/// The steps of all groups in order.
pub open spec fn all_steps(
    items: Seq<(WorkGroupView, Effort)>,
    infos: Seq<ClassInfo>,
) -> Seq<StepContent>
    decreases items.len(),
{
    if items.len() == 0 {
        Seq::empty()
    } else {
        all_steps(items.drop_last(), infos) + steps_at(
            (items.len() - 1) as nat,
            items.last(),
            infos,
        )
    }
}

/// The hunks of one group that are read.
pub open spec fn read_at(item: (WorkGroupView, Effort), infos: Seq<ClassInfo>) -> nat {
    match item.1 {
        Effort::Focus => hunks_in(infos, item.0.class_ids),
        Effort::Skim => item.0.class_ids.len(),
        Effort::Noise => 0,
    }
}

/// The hunks that are read.
pub open spec fn read_total(items: Seq<(WorkGroupView, Effort)>, infos: Seq<ClassInfo>) -> nat
    decreases items.len(),
{
    if items.len() == 0 {
        0
    } else {
        read_total(items.drop_last(), infos) + read_at(items.last(), infos)
    }
}

/// The hunks of all groups.
pub open spec fn hunk_total(items: Seq<(WorkGroupView, Effort)>, infos: Seq<ClassInfo>) -> nat
    decreases items.len(),
{
    if items.len() == 0 {
        0
    } else {
        hunk_total(items.drop_last(), infos) + hunks_in(infos, items.last().0.class_ids)
    }
}

pub open spec fn item_views(items: Seq<(WorkGroup, Effort)>) -> Seq<(WorkGroupView, Effort)> {
    items.map_values(|x: (WorkGroup, Effort)| (x.0@, x.1))
}

/// Find a class info by id.
pub fn find_info(infos: &[ClassInfo], id: &str) -> (r: Option<usize>)
    ensures
        place(r) == last_pos(info_names(infos@), id@),
        r matches Some(i) ==> i < infos@.len() && infos@[i as int].id@ == id@,
{
    let mut i: usize = infos.len();
    let ghost names = info_names(infos@);
    assert(names.take(i as int) =~= names);
    while i > 0
        invariant
            i <= infos@.len(),
            names == info_names(infos@),
            last_pos(names, id@) == last_pos(names.take(i as int), id@),
        decreases i,
    {
        assert(names.take(i as int).drop_last() =~= names.take(i - 1));
        if str_eq(&infos[i - 1].id, id) {
            return Some(i - 1);
        }
        i = i - 1;
    }
    None
}

proof fn lemma_hunks_grow(infos: Seq<ClassInfo>, ids: Seq<Seq<char>>, i: int)
    requires
        0 <= i <= ids.len(),
    ensures
        hunks_in(infos, ids.take(i)) <= hunks_in(infos, ids),
    decreases ids.len(),
{
    if i == ids.len() {
        assert(ids.take(i) =~= ids);
    } else {
        lemma_hunks_grow(infos, ids.drop_last(), i);
        assert(ids.drop_last().take(i) =~= ids.take(i));
    }
}

proof fn lemma_hunks_at_least(infos: Seq<ClassInfo>, ids: Seq<Seq<char>>)
    requires
        all_known(infos, ids),
    ensures
        hunks_in(infos, ids) >= ids.len(),
    decreases ids.len(),
{
    if ids.len() > 0 {
        let p = ids.drop_last();
        assert forall|i: int| 0 <= i < p.len() implies hunks_of(infos, #[trigger] p[i]) >= 1 by {
            assert(p[i] == ids[i]);
        }
        lemma_hunks_at_least(infos, p);
        assert(hunks_of(infos, ids[ids.len() - 1]) >= 1);
    }
}

/// Count the hunks of some classes.
fn count_hunks(infos: &[ClassInfo], ids: &Vec<String>) -> (r: usize)
    requires
        hunks_in(infos@, texts(ids@)) <= usize::MAX,
    ensures
        r == hunks_in(infos@, texts(ids@)),
{
    let mut n: usize = 0;
    let ghost all = texts(ids@);
    for i in 0..ids.len()
        invariant
            all == texts(ids@),
            hunks_in(infos@, all) <= usize::MAX,
            n == hunks_in(infos@, all.take(i as int)),
    {
        proof {
            assert(all.take(i + 1).drop_last() =~= all.take(i as int));
            lemma_hunks_grow(infos@, all, i + 1);
        }
        match find_info(infos, &ids[i]) {
            Some(k) => {
                n = n + infos[k].n_hunks;
            },
            None => {},
        }
    }
    assert(all.take(all.len() as int) =~= all);
    n
}

fn copy_group(g: &WorkGroup) -> (r: WorkGroup)
    ensures
        r@ == g@,
{
    WorkGroup {
        label: g.label.clone(),
        description: g.description.clone(),
        reason: g.reason.clone(),
        skim: g.skim,
        class_ids: copy_texts(&g.class_ids),
        backfill: g.backfill,
    }
}

fn pick(groups: &Vec<WorkGroup>, tier: Tier) -> (r: Vec<WorkGroup>)
    ensures
        work_views(r@) == in_tier(work_views(groups@), tier),
{
    let mut out: Vec<WorkGroup> = Vec::new();
    let ghost all = work_views(groups@);
    assert(work_views(out@) =~= in_tier(all.take(0), tier));
    for i in 0..groups.len()
        invariant
            all == work_views(groups@),
            work_views(out@) == in_tier(all.take(i as int), tier),
    {
        let g = &groups[i];
        proof {
            assert(all.take(i + 1).drop_last() =~= all.take(i as int));
            assert(all.take(i + 1).last() == g@);
        }
        let t = if g.backfill {
            Tier::Backfill
        } else if g.skim {
            Tier::Skim
        } else {
            Tier::Focus
        };
        if t == tier {
            let ghost had = work_views(out@);
            out.push(copy_group(g));
            assert(work_views(out@) =~= had.push(g@));
        }
    }
    assert(all.take(all.len() as int) =~= all);
    out
}

/// What the groups of one tier are of all groups.
proof fn lemma_in_tier(groups: Seq<WorkGroupView>, tier: Tier)
    ensures
        forall|k: int|
            0 <= k < in_tier(groups, tier).len() ==> groups.contains(
                #[trigger] in_tier(groups, tier)[k],
            ),
    decreases groups.len(),
{
    if groups.len() > 0 {
        let p = groups.drop_last();
        lemma_in_tier(p, tier);
        assert forall|k: int| 0 <= k < in_tier(groups, tier).len() implies groups.contains(
            #[trigger] in_tier(groups, tier)[k],
        ) by {
            let g = in_tier(groups, tier)[k];
            if k < in_tier(p, tier).len() {
                assert(p.contains(in_tier(p, tier)[k]));
                let q = choose|q: int| 0 <= q < p.len() && p[q] == g;
                assert(groups[q] == g);
            } else {
                assert(groups[groups.len() - 1] == g);
            }
        }
    }
}

fn append_tier(queue: &mut Vec<(WorkGroup, Effort)>, groups: Vec<WorkGroup>, effort: Effort)
    ensures
        item_views(final(queue)@) == item_views(old(queue)@) + tagged(work_views(groups@), effort),
{
    let ghost had = item_views(queue@);
    let ghost more = tagged(work_views(groups@), effort);
    for i in 0..groups.len()
        invariant
            more == tagged(work_views(groups@), effort),
            item_views(queue@) == had + more.take(i as int),
    {
        let ghost before = item_views(queue@);
        queue.push((copy_group(&groups[i]), effort));
        assert(item_views(queue@) =~= before.push((groups@[i as int]@, effort)));
        assert(item_views(queue@) =~= had + more.take(i + 1));
    }
    assert(more.take(more.len() as int) =~= more);
}

fn sort_skim(groups: Vec<WorkGroup>, infos: &[ClassInfo]) -> (r: Vec<WorkGroup>)
    requires
        forall|k: int|
            0 <= k < groups@.len() ==> hunks_in(infos@, texts((#[trigger] groups@[k]).class_ids@))
                <= usize::MAX,
    ensures
        work_views(r@) == sorted_by(
            work_views(groups@),
            |a: WorkGroupView, b: WorkGroupView|
                hunks_in(infos@, a.class_ids) > hunks_in(infos@, b.class_ids),
        ),
{
    let mut counts: Vec<usize> = Vec::new();
    for i in 0..groups.len()
        invariant
            forall|k: int|
                0 <= k < groups@.len() ==> hunks_in(
                    infos@,
                    texts((#[trigger] groups@[k]).class_ids@),
                ) <= usize::MAX,
            counts@.len() == i,
            forall|k: int|
                0 <= k < i ==> #[trigger] counts@[k] == hunks_in(
                    infos@,
                    work_views(groups@)[k].class_ids,
                ),
    {
        counts.push(count_hunks(infos, &groups[i].class_ids));
    }
    let ghost all = work_views(groups@);
    let ghost f = |a: WorkGroupView, b: WorkGroupView|
        hunks_in(infos@, a.class_ids) > hunks_in(infos@, b.class_ids);
    let ghost lt = |i: int, j: int| f(all[i], all[j]);
    let less = |i: usize, j: usize| -> (r: bool)
        requires
            i < counts@.len(),
            j < counts@.len(),
        ensures
            r == (counts@[i as int] > counts@[j as int]),
        { counts[i] > counts[j] };
    let order = stable_order(groups.len(), less, Ghost(lt));
    let mut out: Vec<WorkGroup> = Vec::new();
    for k in 0..order.len()
        invariant
            all == work_views(groups@),
            order@.len() == groups@.len(),
            forall|a: int| 0 <= a < order@.len() ==> (#[trigger] order@[a]) < groups@.len(),
            out@.len() == k,
            forall|a: int| 0 <= a < k ==> (#[trigger] out@[a])@ == all[order@[a] as int],
    {
        out.push(copy_group(&groups[order[k]]));
    }
    assert(work_views(out@) =~= sorted_by(all, f));
    out
}

fn step(group: &str, action: ReadAction) -> (r: ReadingStep)
    ensures
        r@ == (StepContent { group: group@, action }),
{
    ReadingStep { group: group.to_owned(), action }
}

/// The document with the groups, the reading plan and the audit of the grouping
/// stage.
pub fn assemble(
    doc: PlanDocument,
    infos: &[ClassInfo],
    noise: &[&ClassInfo],
    audited: Audited,
) -> (r: PlanDocument)
    requires
        forall|k: int|
            0 <= k < audited.groups@.len() ==> all_known(
                infos@,
                texts((#[trigger] audited.groups@[k]).class_ids@),
            ) && hunks_in(infos@, texts(audited.groups@[k].class_ids@)) <= usize::MAX,
        all_known(infos@, crate::grouping::ids_of(noise@)),
        hunks_in(infos@, crate::grouping::ids_of(noise@)) <= usize::MAX,
    ensures
        ({
            let items = tiers(work_views(audited.groups@), crate::grouping::ids_of(noise@), infos@);
            &&& r.groups matches Some(groups) && group_views(groups@) == Seq::new(
                items.len(),
                |k: int| group_at(k as nat, items[k]),
            )
            &&& r.reading_plan matches Some(plan) && step_views(plan@) == all_steps(items, infos@)
            &&& r.audit.read_hunks == Some(read_total(items, infos@) as u32)
            &&& r.audit.skipped_hunks == Some(
                (hunk_total(items, infos@) - read_total(items, infos@)) as u32,
            )
        }),
        r.audit.coverage == Some(
            (Coverage { assigned: audited.assigned_hunks, offered: audited.offered_hunks }),
        ),
        r.audit.classes_missing == Some(audited.missing@.len() as u32),
        r.audit.classes_duplicated == Some(audited.dupes),
        r.audit.classes_hallucinated == Some(audited.halluc),
        texts(r.generator.stages@) == texts(doc.generator.stages@).push("group"@),
        r.generator.tool == doc.generator.tool,
        r.generator.version == doc.generator.version,
        r.schema_version == doc.schema_version,
        r.source == doc.source,
        r.stats == doc.stats,
        r.files == doc.files,
        r.hunks == doc.hunks,
        r.classes == doc.classes,
        r.audit.applier_exact == doc.audit.applier_exact,
        r.audit.tree_assertion == doc.audit.tree_assertion,
        r.audit.hunks_carried == doc.audit.hunks_carried,
        r.audit.recount == doc.audit.recount,
{
    let ghost all = work_views(audited.groups@);
    let ghost noise_ids = crate::grouping::ids_of(noise@);
    let focus = pick(&audited.groups, Tier::Focus);
    let skim_groups = pick(&audited.groups, Tier::Skim);
    let backfill = pick(&audited.groups, Tier::Backfill);
    proof {
        lemma_in_tier(all, Tier::Focus);
        lemma_in_tier(all, Tier::Skim);
        lemma_in_tier(all, Tier::Backfill);
        assert forall|g: WorkGroupView| #[trigger] all.contains(g) implies all_known(
            infos@,
            g.class_ids,
        ) && hunks_in(infos@, g.class_ids) <= usize::MAX by {
            let q = choose|q: int| 0 <= q < all.len() && all[q] == g;
            assert(all[q] == audited.groups@[q]@);
        }
        assert forall|k: int| 0 <= k < skim_groups@.len() implies hunks_in(
            infos@,
            texts((#[trigger] skim_groups@[k]).class_ids@),
        ) <= usize::MAX by {
            assert(in_tier(all, Tier::Skim)[k] == skim_groups@[k]@);
        }
    }
    let skim = sort_skim(skim_groups, infos);
    let mut queue: Vec<(WorkGroup, Effort)> = Vec::new();
    append_tier(&mut queue, focus, Effort::Focus);
    append_tier(&mut queue, skim, Effort::Skim);
    if noise.len() > 0 {
        let mut ids: Vec<String> = Vec::new();
        for i in 0..noise.len()
            invariant
                noise_ids == crate::grouping::ids_of(noise@),
                texts(ids@) == noise_ids.take(i as int),
        {
            let ghost had = texts(ids@);
            ids.push(noise[i].id.clone());
            assert(texts(ids@) =~= had.push(noise@[i as int].id@));
            assert(texts(ids@) =~= noise_ids.take(i + 1));
        }
        assert(noise_ids.take(noise_ids.len() as int) =~= noise_ids);
        let work = WorkGroup {
            label: "Generated files".to_owned(),
            description:
                "Generated content (lockfiles, snapshots, build artefacts): folded, verified by provenance rather than read.".to_owned(),
            reason:
                "Every hunk lives in a file marked generated (builtin list, gitattributes, or repo config).".to_owned(),
            skim: false,
            class_ids: ids,
            backfill: false,
        };
        let ghost made = work@;
        let ghost had = item_views(queue@);
        queue.push((work, Effort::Noise));
        assert(made =~= noise_group(noise_ids));
        assert(item_views(queue@) =~= had + seq![(noise_group(noise_ids), Effort::Noise)]);
    } else {
        assert(item_views(queue@) + Seq::<(WorkGroupView, Effort)>::empty() =~= item_views(queue@));
    }
    append_tier(&mut queue, backfill, Effort::Focus);
    let ghost items = tiers(all, noise_ids, infos@);
    proof {
        assert(item_views(queue@) =~= items);
        assert(all.len() == audited.groups.len());
        lemma_items_known(all, noise_ids, infos@);
    }

    let mut groups: Vec<Group> = Vec::new();
    let mut plan: Vec<ReadingStep> = Vec::new();
    let mut read_hunks: u128 = 0;
    let mut skipped_hunks: u128 = 0;
    assert(step_views(plan@) =~= all_steps(items.take(0), infos@));
    for k in 0..queue.len()
        invariant
            item_views(queue@) == items,
            forall|j: int|
                0 <= j < items.len() ==> all_known(infos@, (#[trigger] items[j]).0.class_ids)
                    && hunks_in(infos@, items[j].0.class_ids) <= usize::MAX,
            groups@.len() == k,
            forall|j: int| 0 <= j < k ==> (#[trigger] groups@[j])@ == group_at(j as nat, items[j]),
            step_views(plan@) == all_steps(items.take(k as int), infos@),
            read_hunks == read_total(items.take(k as int), infos@),
            read_hunks + skipped_hunks == hunk_total(items.take(k as int), infos@),
            read_hunks + skipped_hunks <= k * 0xffff_ffff_ffff_ffff,
    {
        let g = &queue[k].0;
        let effort = queue[k].1;
        let ghost item = items[k as int];
        proof {
            assert(items.take(k + 1).drop_last() =~= items.take(k as int));
            assert(items.take(k + 1).last() == item);
            assert(item == (g@, effort));
            assert(all_known(infos@, items[k as int].0.class_ids));
            lemma_hunks_at_least(infos@, item.0.class_ids);
        }
        let mut id = String::new();
        id.push('g');
        push_decimal(&mut id, k as u64);
        assert(id@ =~= group_id(k as nat));
        let n_hunks = count_hunks(infos, &g.class_ids);
        let n_classes = g.class_ids.len();
        let ghost had = step_views(plan@);
        match effort {
            Effort::Focus => {
                read_hunks = read_hunks + n_hunks as u128;
                plan.push(step(&id, ReadAction::Read));
                assert(step_views(plan@) =~= had + steps_at(k as nat, item, infos@));
            },
            Effort::Skim => {
                read_hunks = read_hunks + n_classes as u128;
                skipped_hunks = skipped_hunks + (n_hunks - n_classes) as u128;
                plan.push(step(&id, ReadAction::Exemplars));
                if n_hunks > n_classes {
                    plan.push(step(&id, ReadAction::Skip));
                }
                assert(step_views(plan@) =~= had + steps_at(k as nat, item, infos@));
            },
            Effort::Noise => {
                skipped_hunks = skipped_hunks + n_hunks as u128;
                plan.push(step(&id, ReadAction::Fold));
                assert(step_views(plan@) =~= had + steps_at(k as nat, item, infos@));
            },
        }
        let role = if effort == Effort::Noise {
            Some(Role::Noise)
        } else {
            None
        };
        let made = Group {
            id,
            label: g.label.clone(),
            description: g.description.clone(),
            reason: g.reason.clone(),
            effort,
            role,
            class_ids: copy_texts(&g.class_ids),
            depends_on: Vec::new(),
            rank: #[verifier::truncate] (k as u32),
        };
        assert(texts(made.depends_on@) =~= Seq::<Seq<char>>::empty());
        assert(made@ == group_at(k as nat, item));
        groups.push(made);
    }
    assert(items.take(items.len() as int) =~= items);
    assert(group_views(groups@) =~= Seq::new(items.len(), |k: int| group_at(k as nat, items[k])));
    let mut out = doc;
    let ghost stages = texts(out.generator.stages@);
    out.generator.stages.push("group".to_owned());
    assert(texts(out.generator.stages@) =~= stages.push("group"@));
    out.groups = Some(groups);
    out.reading_plan = Some(plan);
    out.audit.coverage = Some(
        Coverage { assigned: audited.assigned_hunks, offered: audited.offered_hunks },
    );
    out.audit.classes_missing = Some(#[verifier::truncate] (audited.missing.len() as u32));
    out.audit.classes_duplicated = Some(audited.dupes);
    out.audit.classes_hallucinated = Some(audited.halluc);
    out.audit.read_hunks = Some(#[verifier::truncate] (read_hunks as u32));
    out.audit.skipped_hunks = Some(#[verifier::truncate] (skipped_hunks as u32));
    out
}

proof fn lemma_items_known(
    groups: Seq<WorkGroupView>,
    noise: Seq<Seq<char>>,
    infos: Seq<ClassInfo>,
)
    requires
        forall|g: WorkGroupView| #[trigger]
            groups.contains(g) ==> all_known(infos, g.class_ids) && hunks_in(infos, g.class_ids)
                <= usize::MAX,
        all_known(infos, noise),
        hunks_in(infos, noise) <= usize::MAX,
        groups.len() <= usize::MAX,
    ensures
        forall|j: int|
            0 <= j < tiers(groups, noise, infos).len() ==> all_known(
                infos,
                (#[trigger] tiers(groups, noise, infos)[j]).0.class_ids,
            ) && hunks_in(infos, tiers(groups, noise, infos)[j].0.class_ids) <= usize::MAX,
{
    let items = tiers(groups, noise, infos);
    let focus = in_tier(groups, Tier::Focus);
    let skim = in_tier(groups, Tier::Skim);
    let back = in_tier(groups, Tier::Backfill);
    lemma_in_tier(groups, Tier::Focus);
    lemma_in_tier(groups, Tier::Skim);
    lemma_in_tier(groups, Tier::Backfill);
    lemma_tier_len(groups, Tier::Skim);
    let f = |a: WorkGroupView, b: WorkGroupView|
        hunks_in(infos, a.class_ids) > hunks_in(infos, b.class_ids);
    let lt = |i: int, j: int| f(skim[i], skim[j]);
    crate::seqs::lemma_stable_exists(skim.len(), lt);
    let perm = crate::seqs::stable_perm(skim.len() as int, lt);
    let sorted = skim_order(groups, infos);
    assert forall|j: int| 0 <= j < sorted.len() implies groups.contains(#[trigger] sorted[j]) by {
        assert(sorted[j] == skim[perm[j] as int]);
    }
    let a = focus.len() as int;
    let b = a + sorted.len();
    let c = b + (if noise.len() > 0 {
        1int
    } else {
        0int
    });
    assert forall|j: int| 0 <= j < items.len() implies all_known(
        infos,
        (#[trigger] items[j]).0.class_ids,
    ) && hunks_in(infos, items[j].0.class_ids) <= usize::MAX by {
        if j < a {
            assert(items[j].0 == focus[j]);
            assert(groups.contains(focus[j]));
        } else if j < b {
            assert(items[j].0 == sorted[j - a]);
            assert(groups.contains(sorted[j - a]));
        } else if j < c {
            assert(items[j].0 == noise_group(noise));
        } else {
            assert(items[j].0 == back[j - c]);
            assert(groups.contains(back[j - c]));
        }
    }
}

pub proof fn lemma_tier_len(groups: Seq<WorkGroupView>, tier: Tier)
    ensures
        in_tier(groups, tier).len() <= groups.len(),
    decreases groups.len(),
{
    if groups.len() > 0 {
        lemma_tier_len(groups.drop_last(), tier);
    }
}

} // verus!
