//! What holds of the audit of an answer and of the reading plan, said of what the model
//! names and of what comes out.
use vstd::prelude::*;

use super::assemble::{
    all_known, all_steps, group_at, group_id, hunk_total, hunks_in, hunks_of, in_tier, info_names,
    lemma_tier_len, read_total, skim_order, step_of, steps_at, tier_of, Tier,
};
use super::coverage::{
    bare, law_every_class_is_in_one_group, law_every_hunk_is_read_or_skipped, plan_items,
};
use super::gate::{gated_groups, gated_ids, ungated, ungated_groups};
use super::parse::{RawGroup, RawGroups};
use super::{
    all_hunks, audit, audited_groups, carried, final_groups, groupable, ids_of, is_grouped,
    kept_groups, mentions, named_hunks, omitted, repeated, routed, run, total_hunks, unknown,
    Audited, ClassInfo, WorkGroupView,
};
use crate::schema::{
    group_views, last_pos, lemma_last_pos, step_views, Effort, Group, PlanDocument, ReadAction,
    ReadingStep,
};
use crate::seqs::{lemma_stable_exists, stable_before, stable_perm, texts};
use crate::text::{decimal, law_decimal_round_trip};

verus! {

// ---------------------------------------------------------------------------
// The audit

/// Whether an answer names a class at a place: at one of the places of one of its groups.
pub open spec fn names_at(raw: Seq<RawGroup>, g: int, i: int, id: Seq<char>) -> bool {
    0 <= g < raw.len() && 0 <= i < raw[g].classes@.len() && raw[g].classes@[i]@ == id
}

/// Whether an answer names a class.
pub open spec fn is_answered(raw: Seq<RawGroup>, id: Seq<char>) -> bool {
    exists|g: int, i: int| #[trigger] names_at(raw, g, i, id)
}

/// Whether an answer names a class at two places.
pub open spec fn is_answered_twice(raw: Seq<RawGroup>, id: Seq<char>) -> bool {
    exists|g: int, i: int, h: int, j: int| #[trigger]
        names_at(raw, g, i, id) && #[trigger] names_at(raw, h, j, id) && (g < h || (g == h && i
            < j))
}

/// Whether a class was offered.
pub open spec fn is_offered(offered: Seq<&ClassInfo>, id: Seq<char>) -> bool {
    exists|k: int| 0 <= k < offered.len() && (#[trigger] offered[k]).id@ == id
}

/// Whether a name stands at two places of a list.
spec fn twice(m: Seq<Seq<char>>, x: Seq<char>) -> bool {
    exists|p: int, q: int| 0 <= p < q < m.len() && #[trigger] m[p] == x && #[trigger] m[q] == x
}

proof fn lemma_in_concat(a: Seq<Seq<char>>, b: Seq<Seq<char>>, x: Seq<char>)
    ensures
        (a + b).contains(x) <==> a.contains(x) || b.contains(x),
        twice(a + b, x) <==> twice(a, x) || twice(b, x) || (a.contains(x) && b.contains(x)),
{
    let c = a + b;
    let n = a.len() as int;
    if a.contains(x) {
        let k = choose|k: int| 0 <= k < a.len() && a[k] == x;
        assert(c[k] == x);
    }
    if b.contains(x) {
        let k = choose|k: int| 0 <= k < b.len() && b[k] == x;
        assert(c[n + k] == x);
    }
    if c.contains(x) {
        let k = choose|k: int| 0 <= k < c.len() && c[k] == x;
        if k < n {
            assert(a[k] == x);
        } else {
            assert(b[k - n] == x);
        }
    }
    if twice(c, x) {
        let (p, q) = choose|p: int, q: int|
            0 <= p < q < c.len() && #[trigger] c[p] == x && #[trigger] c[q] == x;
        if q < n {
            assert(a[p] == x && a[q] == x);
        } else if p >= n {
            assert(b[p - n] == x && b[q - n] == x);
        } else {
            assert(a[p] == x && b[q - n] == x);
        }
    }
    if twice(a, x) {
        let (p, q) = choose|p: int, q: int|
            0 <= p < q < a.len() && #[trigger] a[p] == x && #[trigger] a[q] == x;
        assert(c[p] == x && c[q] == x);
    }
    if twice(b, x) {
        let (p, q) = choose|p: int, q: int|
            0 <= p < q < b.len() && #[trigger] b[p] == x && #[trigger] b[q] == x;
        assert(c[n + p] == x && c[n + q] == x);
    }
    if a.contains(x) && b.contains(x) {
        let p = choose|p: int| 0 <= p < a.len() && a[p] == x;
        let q = choose|q: int| 0 <= q < b.len() && b[q] == x;
        assert(c[p] == x && c[n + q] == x);
    }
}

/// What is mentioned is what the answer names.
proof fn lemma_mentions(raw: Seq<RawGroup>, x: Seq<char>)
    ensures
        mentions(raw).contains(x) <==> is_answered(raw, x),
        twice(mentions(raw), x) <==> is_answered_twice(raw, x),
    decreases raw.len(),
{
    if raw.len() > 0 {
        let fewer = raw.drop_last();
        let last = raw.len() - 1;
        let names = texts(raw.last().classes@);
        lemma_mentions(fewer, x);
        lemma_in_concat(mentions(fewer), names, x);
        assert forall|g: int, i: int| g < last implies (#[trigger] names_at(raw, g, i, x)
            <==> names_at(fewer, g, i, x)) by {}
        assert(names.len() == raw.last().classes@.len());
        assert forall|i: int| #[trigger] names_at(raw, last, i, x) <==> 0 <= i < names.len()
            && names[i] == x by {}
        if is_answered(fewer, x) {
            let (g, i) = choose|g: int, i: int| #[trigger] names_at(fewer, g, i, x);
            assert(names_at(raw, g, i, x));
        }
        if names.contains(x) {
            let i = choose|i: int| 0 <= i < names.len() && names[i] == x;
            assert(names_at(raw, last, i, x));
        }
        if is_answered(raw, x) {
            let (g, i) = choose|g: int, i: int| #[trigger] names_at(raw, g, i, x);
            if g < last {
                assert(names_at(fewer, g, i, x));
            } else {
                assert(names[i] == x);
            }
        }
        if is_answered_twice(fewer, x) {
            let (g, i, h, j) = choose|g: int, i: int, h: int, j: int| #[trigger]
                names_at(fewer, g, i, x) && #[trigger] names_at(fewer, h, j, x) && (g < h || (g == h
                    && i < j));
            assert(names_at(raw, g, i, x) && names_at(raw, h, j, x));
        }
        if twice(names, x) {
            let (i, j) = choose|i: int, j: int|
                0 <= i < j < names.len() && #[trigger] names[i] == x && #[trigger] names[j] == x;
            assert(names_at(raw, last, i, x) && names_at(raw, last, j, x));
        }
        if is_answered(fewer, x) && names.contains(x) {
            let (g, i) = choose|g: int, i: int| #[trigger] names_at(fewer, g, i, x);
            let j = choose|j: int| 0 <= j < names.len() && names[j] == x;
            assert(names_at(raw, g, i, x) && names_at(raw, last, j, x));
        }
        if is_answered_twice(raw, x) {
            let (g, i, h, j) = choose|g: int, i: int, h: int, j: int| #[trigger]
                names_at(raw, g, i, x) && #[trigger] names_at(raw, h, j, x) && (g < h || (g == h && i
                    < j));
            if h < last {
                assert(names_at(fewer, g, i, x) && names_at(fewer, h, j, x));
            } else if g < last {
                assert(names_at(fewer, g, i, x));
                assert(names[j] == x);
            } else {
                assert(names[i] == x && names[j] == x);
            }
        }
    }
}

proof fn lemma_one(m: Seq<Seq<char>>, x: Seq<char>)
    requires
        m.len() > 0,
    ensures
        m.contains(x) <==> m.drop_last().contains(x) || m.last() == x,
        twice(m, x) <==> twice(m.drop_last(), x) || (m.drop_last().contains(x) && m.last() == x),
{
    let one = seq![m.last()];
    assert(m =~= m.drop_last() + one);
    lemma_in_concat(m.drop_last(), one, x);
    assert(one[0] == m.last());
    assert(one.contains(x) <==> m.last() == x);
    assert(!twice(one, x));
}

proof fn lemma_repeated(m: Seq<Seq<char>>, ids: Seq<Seq<char>>, x: Seq<char>)
    ensures
        repeated(m, ids).contains(x) <==> ids.contains(x) && twice(m, x),
        unknown(m, ids).contains(x) <==> !ids.contains(x) && m.contains(x),
        !twice(repeated(m, ids), x),
        !twice(unknown(m, ids), x),
    decreases m.len(),
{
    if m.len() > 0 {
        lemma_repeated(m.drop_last(), ids, x);
        lemma_repeated(m.drop_last(), ids, m.last());
        lemma_one(m, x);
        let r = repeated(m, ids);
        let u = unknown(m, ids);
        if r != repeated(m.drop_last(), ids) {
            assert(r.drop_last() =~= repeated(m.drop_last(), ids));
            lemma_one(r, x);
        }
        if u != unknown(m.drop_last(), ids) {
            assert(u.drop_last() =~= unknown(m.drop_last(), ids));
            lemma_one(u, x);
        }
    }
}

proof fn lemma_left_out(ids: Seq<Seq<char>>, m: Seq<Seq<char>>, x: Seq<char>)
    ensures
        omitted(ids, m).contains(x) <==> ids.contains(x) && !m.contains(x),
    decreases ids.len(),
{
    if ids.len() > 0 {
        lemma_left_out(ids.drop_last(), m, x);
        lemma_one(ids, x);
        let o = omitted(ids, m);
        if !m.contains(ids.last()) {
            assert(o.drop_last() =~= omitted(ids.drop_last(), m));
            lemma_one(o, x);
        }
    }
}

proof fn lemma_offered(offered: Seq<&ClassInfo>, x: Seq<char>)
    ensures
        ids_of(offered).contains(x) <==> is_offered(offered, x),
{
    let ids = ids_of(offered);
    if ids.contains(x) {
        let k = choose|k: int| 0 <= k < ids.len() && ids[k] == x;
        assert(offered[k].id@ == x);
    }
    if is_offered(offered, x) {
        let k = choose|k: int| 0 <= k < offered.len() && (#[trigger] offered[k]).id@ == x;
        assert(ids[k] == x);
    }
}

/// The audit of an answer finds the offered classes that no group names, those that are
/// named at two places, and the names that were not offered, and nothing else.
pub proof fn law_the_audit_finds_what_is_wrong(
    raw: RawGroups,
    offered: &[&ClassInfo],
    r: Audited,
    id: Seq<char>,
)
    requires
        call_ensures(audit, (raw, offered), r),
    ensures
        texts(r.missing@).contains(id) <==> is_offered(offered@, id) && !is_answered(
            raw.groups@,
            id,
        ),
        texts(r.dupes@).contains(id) <==> is_offered(offered@, id) && is_answered_twice(
            raw.groups@,
            id,
        ),
        texts(r.halluc@).contains(id) <==> is_answered(raw.groups@, id) && !is_offered(
            offered@,
            id,
        ),
{
    let ids = ids_of(offered@);
    let m = mentions(raw.groups@);
    lemma_mentions(raw.groups@, id);
    lemma_repeated(m, ids, id);
    lemma_left_out(ids, m, id);
    lemma_offered(offered@, id);
}

/// The audit counts the hunks of all classes that were offered, and of those that the
/// answer names.
pub proof fn law_the_audit_counts_hunks(raw: RawGroups, offered: &[&ClassInfo], r: Audited)
    requires
        call_ensures(audit, (raw, offered), r),
    ensures
        r.offered_hunks == offered@.fold_left(0int, |n: int, c: &ClassInfo| n + c.n_hunks),
        r.assigned_hunks == offered@.fold_left(
            0int,
            |n: int, c: &ClassInfo|
                if is_answered(raw.groups@, c.id@) {
                    n + c.n_hunks
                } else {
                    n
                },
        ),
{
    lemma_sums(offered@, raw.groups@);
}

proof fn lemma_sums(offered: Seq<&ClassInfo>, raw: Seq<RawGroup>)
    ensures
        total_hunks(offered) == offered.fold_left(0int, |n: int, c: &ClassInfo| n + c.n_hunks),
        named_hunks(offered, mentions(raw)) == offered.fold_left(
            0int,
            |n: int, c: &ClassInfo|
                if is_answered(raw, c.id@) {
                    n + c.n_hunks
                } else {
                    n
                },
        ),
    decreases offered.len(),
{
    if offered.len() > 0 {
        lemma_sums(offered.drop_last(), raw);
        lemma_mentions(raw, offered.last().id@);
    }
}

// ---------------------------------------------------------------------------
// The plan

proof fn lemma_group_ids(a: nat, b: nat)
    requires
        group_id(a) == group_id(b),
    ensures
        a == b,
{
    let (x, y) = (group_id(a), group_id(b));
    assert(x.skip(1) =~= decimal(a));
    assert(y.skip(1) =~= decimal(b));
    let max = if a < b {
        b
    } else {
        a
    };
    law_decimal_round_trip(a, max);
    law_decimal_round_trip(b, max);
}

proof fn lemma_steps(
    items: Seq<(WorkGroupView, Effort)>,
    infos: Seq<ClassInfo>,
    g: nat,
    action: ReadAction,
)
    ensures
        all_steps(items, infos).contains(step_of(g, action)) <==> g < items.len() && steps_at(
            g,
            items[g as int],
            infos,
        ).contains(step_of(g, action)),
    decreases items.len(),
{
    let all = all_steps(items, infos);
    let x = step_of(g, action);
    if items.len() > 0 {
        let fewer = items.drop_last();
        let n = (items.len() - 1) as nat;
        let before = all_steps(fewer, infos);
        let last = steps_at(n, items.last(), infos);
        lemma_steps(fewer, infos, g, action);
        assert(all == before + last);
        if all.contains(x) {
            let k = choose|k: int| 0 <= k < all.len() && all[k] == x;
            if k < before.len() {
                assert(before[k] == x);
            } else {
                let s = last[k - before.len()];
                assert(s == x);
                assert(s.group == group_id(n));
                lemma_group_ids(g, n);
            }
        }
        if g < n && before.contains(x) {
            let k = choose|k: int| 0 <= k < before.len() && before[k] == x;
            assert(all[k] == x);
        }
        if g == n && last.contains(x) {
            let k = choose|k: int| 0 <= k < last.len() && last[k] == x;
            assert(all[before.len() + k] == x);
        }
    }
}

/// Classes that each have a hunk have more hunks than classes exactly where one of them
/// has two.
proof fn lemma_more_hunks(infos: Seq<ClassInfo>, ids: Seq<Seq<char>>)
    requires
        all_known(infos, ids),
    ensures
        hunks_in(infos, ids) >= ids.len(),
        hunks_in(infos, ids) > ids.len() <==> exists|k: int|
            0 <= k < ids.len() && hunks_of(infos, #[trigger] ids[k]) > 1,
    decreases ids.len(),
{
    if ids.len() > 0 {
        let fewer = ids.drop_last();
        assert forall|i: int| 0 <= i < fewer.len() implies hunks_of(infos, #[trigger] fewer[i])
            >= 1 by {
            assert(fewer[i] == ids[i]);
        }
        lemma_more_hunks(infos, fewer);
        let last = ids.len() - 1;
        assert(hunks_of(infos, ids[last]) >= 1);
        if hunks_in(infos, fewer) > fewer.len() {
            let k = choose|k: int|
                0 <= k < fewer.len() && hunks_of(infos, #[trigger] fewer[k]) > 1;
            assert(ids[k] == fewer[k]);
        }
        if exists|k: int| 0 <= k < ids.len() && hunks_of(infos, #[trigger] ids[k]) > 1 {
            let k = choose|k: int| 0 <= k < ids.len() && hunks_of(infos, #[trigger] ids[k]) > 1;
            if k < last {
                assert(fewer[k] == ids[k]);
            }
        }
    }
}

/// What a group carries is carried.
proof fn lemma_carries(groups: Seq<WorkGroupView>, g: int, i: int)
    requires
        0 <= g < groups.len(),
        0 <= i < groups[g].class_ids.len(),
    ensures
        carried(groups).contains(groups[g].class_ids[i]),
    decreases groups.len(),
{
    let before = carried(groups.drop_last());
    let last = groups.last().class_ids;
    let x = groups[g].class_ids[i];
    lemma_in_concat(before, last, x);
    if g < groups.len() - 1 {
        lemma_carries(groups.drop_last(), g, i);
    } else {
        assert(last[i] == x);
    }
}

/// Every class of a group is one of the infos, and has a hunk.
proof fn lemma_items_are_known(infos: Seq<ClassInfo>, raw: Seq<RawGroup>, g: int)
    requires
        groupable(infos),
        final_groups(infos, raw).len() <= usize::MAX,
        0 <= g < plan_items(infos, raw).len(),
    ensures
        all_known(infos, plan_items(infos, raw)[g].0.class_ids),
{
    let items = plan_items(infos, raw);
    let groups = bare(items);
    let names = info_names(infos);
    let ids = items[g].0.class_ids;
    law_every_class_is_in_one_group(infos, raw);
    assert forall|i: int| 0 <= i < ids.len() implies hunks_of(infos, #[trigger] ids[i]) >= 1 by {
        assert(groups[g] == items[g].0);
        lemma_carries(groups, g, i);
        carried(groups).to_multiset_ensures();
        names.to_multiset_ensures();
        assert(carried(groups).to_multiset().count(ids[i]) > 0);
        assert(names.contains(ids[i]));
        lemma_last_pos(names, ids[i]);
    }
}

/// Whether a plan tells a reader to do something with a group.
pub open spec fn tells(plan: Seq<ReadingStep>, group: Seq<char>, action: ReadAction) -> bool {
    exists|k: int|
        0 <= k < plan.len() && (#[trigger] plan[k]).group@ == group && plan[k].action == action
}

/// Whether a group carries a class with more than one hunk.
pub open spec fn has_more_than_exemplars(infos: Seq<ClassInfo>, g: Group) -> bool {
    exists|c: int|
        0 <= c < infos.len() && texts(g.class_ids@).contains((#[trigger] infos[c]).id@)
            && infos[c].n_hunks > 1
}

/// The groups are numbered in order. The plan tells to read every focus group, to read
/// the exemplars of every skim group and to skip what is left of it, where something is,
/// and to fold every noise group.
pub proof fn law_the_plan_says_what_to_do_with_a_group(
    doc: PlanDocument,
    infos: Vec<ClassInfo>,
    raw: RawGroups,
    r: PlanDocument,
    g: int,
)
    requires
        groupable(infos@),
        call_ensures(run, (doc, &infos, raw), r),
        r.groups is Some,
        0 <= g < r.groups->0@.len(),
    ensures
        r.reading_plan is Some,
        r.groups->0@[g].id@ == seq!['g'] + decimal(g as nat),
        r.groups->0@[g].rank == g as u32,
        tells(r.reading_plan->0@, r.groups->0@[g].id@, ReadAction::Read) <==> r.groups->0@[g].effort
            == Effort::Focus,
        tells(r.reading_plan->0@, r.groups->0@[g].id@, ReadAction::Exemplars)
            <==> r.groups->0@[g].effort == Effort::Skim,
        tells(r.reading_plan->0@, r.groups->0@[g].id@, ReadAction::Skip)
            <==> r.groups->0@[g].effort == Effort::Skim && has_more_than_exemplars(
            infos@,
            r.groups->0@[g],
        ),
        tells(r.reading_plan->0@, r.groups->0@[g].id@, ReadAction::Fold) <==> r.groups->0@[g].effort
            == Effort::Noise,
{
    let groups = r.groups->0@;
    let plan = r.reading_plan->0@;
    let items = plan_items(infos@, raw.groups@);
    assert(is_grouped(doc, infos@, raw.groups@, r));
    let listed = Seq::new(items.len(), |k: int| group_at(k as nat, items[k]));
    assert(group_views(groups) == listed);
    assert(group_views(groups).len() == groups.len());
    assert(group_views(groups)[g] == groups[g]@);
    assert(listed[g] == group_at(g as nat, items[g]));
    let n = g as nat;
    assert forall|action: ReadAction| #[trigger] tells(plan, groups[g].id@, action) <==> steps_at(
        n,
        items[g],
        infos@,
    ).contains(step_of(n, action)) by {
        lemma_steps(items, infos@, n, action);
        let views = step_views(plan);
        if tells(plan, groups[g].id@, action) {
            let k = choose|k: int|
                0 <= k < plan.len() && (#[trigger] plan[k]).group@ == groups[g].id@
                    && plan[k].action == action;
            assert(views[k] == step_of(n, action));
        }
        if views.contains(step_of(n, action)) {
            let k = choose|k: int| 0 <= k < views.len() && views[k] == step_of(n, action);
            assert(views[k] == plan[k]@);
        }
    }
    let steps = steps_at(n, items[g], infos@);
    assert(steps.len() > 0 && steps.contains(steps[0]));
    if steps.len() == 2 {
        assert(steps.contains(steps[1]));
    }
    assert(steps[0].action == (match items[g].1 {
        Effort::Focus => ReadAction::Read,
        Effort::Skim => ReadAction::Exemplars,
        Effort::Noise => ReadAction::Fold,
    }));
    assert(steps[0] == step_of(n, steps[0].action));
    lemma_items_are_known(infos@, raw.groups@, g);
    let ids = items[g].0.class_ids;
    lemma_more_hunks(infos@, ids);
    let names = info_names(infos@);
    if hunks_in(infos@, ids) > ids.len() {
        let k = choose|k: int| 0 <= k < ids.len() && hunks_of(infos@, #[trigger] ids[k]) > 1;
        lemma_last_pos(names, ids[k]);
        let c = last_pos(names, ids[k])->0;
        assert(names[c] == infos@[c].id@);
        assert(texts(groups[g].class_ids@).contains(infos@[c].id@));
    }
    if has_more_than_exemplars(infos@, groups[g]) {
        let c = choose|c: int|
            0 <= c < infos@.len() && texts(groups[g].class_ids@).contains(
                (#[trigger] infos@[c]).id@,
            ) && infos@[c].n_hunks > 1;
        let k = choose|k: int| 0 <= k < ids.len() && ids[k] == infos@[c].id@;
        lemma_last_pos(names, ids[k]);
        assert(names[c] == ids[k]);
        assert(hunks_of(infos@, ids[k]) > 1);
    }
}

/// The hunks that the first `k` groups ask to be read: all of a focus group, one a class
/// of a skim group, none of a noise group.
pub open spec fn asked_of(groups: Seq<Group>, infos: Seq<ClassInfo>, k: nat) -> nat
    decreases k,
{
    if k == 0 {
        0
    } else {
        let g = groups[k - 1];
        asked_of(groups, infos, (k - 1) as nat) + (if g.effort == Effort::Focus {
            hunks_in(infos, texts(g.class_ids@))
        } else if g.effort == Effort::Skim {
            g.class_ids@.len()
        } else {
            0
        })
    }
}

proof fn lemma_asked(
    groups: Seq<Group>,
    items: Seq<(WorkGroupView, Effort)>,
    infos: Seq<ClassInfo>,
    k: nat,
)
    requires
        k <= groups.len() == items.len(),
        forall|g: int|
            0 <= g < groups.len() ==> texts((#[trigger] groups[g]).class_ids@)
                == items[g].0.class_ids && groups[g].effort == items[g].1,
    ensures
        asked_of(groups, infos, k) == read_total(items.take(k as int), infos),
    decreases k,
{
    let taken = items.take(k as int);
    if k > 0 {
        lemma_asked(groups, items, infos, (k - 1) as nat);
        assert(taken.drop_last() =~= items.take(k - 1));
        assert(taken.last() == items[k - 1]);
        assert(texts(groups[k - 1].class_ids@).len() == groups[k - 1].class_ids@.len());
    }
}

/// What is read is what the groups ask for, and what is skipped is every other hunk.
pub proof fn law_what_is_not_read_is_skipped(
    doc: PlanDocument,
    infos: Vec<ClassInfo>,
    raw: RawGroups,
    r: PlanDocument,
)
    requires
        groupable(infos@),
        call_ensures(run, (doc, &infos, raw), r),
        r.groups is Some,
        all_hunks(infos@) <= u32::MAX,
    ensures
        r.audit.read_hunks == Some(asked_of(r.groups->0@, infos@, r.groups->0@.len()) as u32),
        r.audit.read_hunks is Some && r.audit.skipped_hunks is Some,
        r.audit.read_hunks->0 + r.audit.skipped_hunks->0 == all_hunks(infos@),
{
    let groups = r.groups->0@;
    let items = plan_items(infos@, raw.groups@);
    assert(is_grouped(doc, infos@, raw.groups@, r));
    let listed = Seq::new(items.len(), |k: int| group_at(k as nat, items[k]));
    assert(group_views(groups) == listed);
    assert(group_views(groups).len() == groups.len());
    assert forall|g: int| 0 <= g < groups.len() implies texts((#[trigger] groups[g]).class_ids@)
        == items[g].0.class_ids && groups[g].effort == items[g].1 by {
        assert(group_views(groups)[g] == groups[g]@);
        assert(listed[g] == group_at(g as nat, items[g]));
    }
    lemma_asked(groups, items, infos@, groups.len());
    assert(items.take(items.len() as int) =~= items);
    law_every_hunk_is_read_or_skipped(infos@, raw.groups@);
    lemma_read_is_part(infos@, raw.groups@, items.len());
}

/// No more is read than there is.
proof fn lemma_read_is_part(infos: Seq<ClassInfo>, raw: Seq<RawGroup>, k: nat)
    requires
        groupable(infos),
        final_groups(infos, raw).len() <= usize::MAX,
        k <= plan_items(infos, raw).len(),
    ensures
        read_total(plan_items(infos, raw).take(k as int), infos) <= hunk_total(
            plan_items(infos, raw).take(k as int),
            infos,
        ),
    decreases k,
{
    let items = plan_items(infos, raw);
    let taken = items.take(k as int);
    if k > 0 {
        lemma_read_is_part(infos, raw, (k - 1) as nat);
        assert(taken.drop_last() =~= items.take(k - 1));
        assert(taken.last() == items[k - 1]);
        lemma_items_are_known(infos, raw, k - 1);
        lemma_more_hunks(infos, items[k - 1].0.class_ids);
    }
}

/// Where a back-fill group is, a class was left out.
proof fn lemma_backfill(infos: Seq<ClassInfo>, raw: Seq<RawGroup>)
    ensures
        forall|k: int|
            0 <= k < final_groups(infos, raw).len() && (#[trigger] final_groups(
                infos,
                raw,
            )[k]).backfill ==> omitted(ids_of(routed(infos, false)), mentions(raw)).len() > 0,
{
    let ids = ids_of(routed(infos, false));
    let missing = omitted(ids, mentions(raw)).len() > 0;
    lemma_kept_is_no_backfill(raw, ids);
    let audited = if ids.len() == 0 {
        Seq::<WorkGroupView>::empty()
    } else {
        audited_groups(raw, ids)
    };
    let gated = gated_ids(infos);
    assert forall|k: int| 0 <= k < audited.len() && (#[trigger] audited[k]).backfill implies missing by {
        let kept = kept_groups(raw, ids);
        if k < kept.len() {
            assert(audited[k] == kept[k]);
        }
    }
    lemma_ungated_backfill(audited, gated, missing);
    let open = ungated_groups(audited, gated);
    let all = gated_groups(audited, gated);
    assert forall|k: int| 0 <= k < all.len() && (#[trigger] all[k]).backfill implies missing by {
        if gated.len() > 0 && k < open.len() {
            assert(all[k] == open[k]);
        }
    }
}

proof fn lemma_kept_is_no_backfill(raw: Seq<RawGroup>, ids: Seq<Seq<char>>)
    ensures
        forall|k: int|
            0 <= k < kept_groups(raw, ids).len() ==> !(#[trigger] kept_groups(raw, ids)[k]).backfill,
    decreases raw.len(),
{
    if raw.len() > 0 {
        lemma_kept_is_no_backfill(raw.drop_last(), ids);
        let before = kept_groups(raw.drop_last(), ids);
        let all = kept_groups(raw, ids);
        assert forall|k: int| 0 <= k < all.len() implies !(#[trigger] all[k]).backfill by {
            if k < before.len() {
                assert(all[k] == before[k]);
            }
        }
    }
}

proof fn lemma_ungated_backfill(groups: Seq<WorkGroupView>, gated: Seq<Seq<char>>, p: bool)
    requires
        forall|k: int| 0 <= k < groups.len() && (#[trigger] groups[k]).backfill ==> p,
    ensures
        forall|k: int|
            0 <= k < ungated_groups(groups, gated).len() && (#[trigger] ungated_groups(
                groups,
                gated,
            )[k]).backfill ==> p,
    decreases groups.len(),
{
    if groups.len() > 0 {
        let fewer = groups.drop_last();
        assert forall|k: int| 0 <= k < fewer.len() && (#[trigger] fewer[k]).backfill implies p by {
            assert(fewer[k] == groups[k]);
        }
        lemma_ungated_backfill(fewer, gated, p);
        let before = ungated_groups(fewer, gated);
        let all = ungated_groups(groups, gated);
        assert(groups.last() == groups[groups.len() - 1]);
        assert forall|k: int| 0 <= k < all.len() && (#[trigger] all[k]).backfill implies p by {
            if k < before.len() {
                assert(all[k] == before[k]);
            } else {
                assert(all[k] == ungated(groups.last(), gated));
            }
        }
    }
}

proof fn lemma_tier(groups: Seq<WorkGroupView>, tier: Tier)
    ensures
        forall|k: int|
            0 <= k < in_tier(groups, tier).len() ==> groups.contains(
                #[trigger] in_tier(groups, tier)[k],
            ) && tier_of(in_tier(groups, tier)[k]) == tier,
    decreases groups.len(),
{
    if groups.len() > 0 {
        lemma_tier(groups.drop_last(), tier);
        let before = in_tier(groups.drop_last(), tier);
        let all = in_tier(groups, tier);
        assert forall|k: int| 0 <= k < all.len() implies groups.contains(#[trigger] all[k])
            && tier_of(all[k]) == tier by {
            if k < before.len() {
                assert(all[k] == before[k]);
                let fewer = groups.drop_last();
                let i = choose|i: int| 0 <= i < fewer.len() && fewer[i] == before[k];
                assert(groups[i] == before[k]);
            } else {
                assert(all[k] == groups[groups.len() - 1]);
            }
        }
    }
}

/// The groups come in order: those to focus on, those to skim, the noise. Only where a
/// class was left out does a group to focus on stand behind the others. Of the groups to
/// skim none has more hunks than one before it.
pub proof fn law_the_groups_come_by_effort(
    doc: PlanDocument,
    infos: Vec<ClassInfo>,
    raw: RawGroups,
    r: PlanDocument,
    g: int,
    h: int,
)
    requires
        groupable(infos@),
        call_ensures(run, (doc, &infos, raw), r),
        r.groups is Some,
        0 <= g < h < r.groups->0@.len(),
    ensures
        r.groups->0@[g].effort == Effort::Skim ==> r.groups->0@[h].effort != Effort::Focus
            || exists|id: Seq<char>|
            is_offered(routed(infos@, false), id) && !#[trigger] is_answered(raw.groups@, id),
        r.groups->0@[g].effort == Effort::Noise ==> r.groups->0@[h].effort == Effort::Focus
            && exists|id: Seq<char>|
            is_offered(routed(infos@, false), id) && !#[trigger] is_answered(raw.groups@, id),
        r.groups->0@[g].effort == Effort::Skim && r.groups->0@[h].effort == Effort::Skim
            ==> hunks_in(infos@, texts(r.groups->0@[g].class_ids@)) >= hunks_in(
            infos@,
            texts(r.groups->0@[h].class_ids@),
        ),
{
    let groups = r.groups->0@;
    let items = plan_items(infos@, raw.groups@);
    assert(is_grouped(doc, infos@, raw.groups@, r));
    let listed = Seq::new(items.len(), |k: int| group_at(k as nat, items[k]));
    assert(group_views(groups) == listed);
    assert(group_views(groups).len() == groups.len());
    assert(group_views(groups)[g] == groups[g]@ && group_views(groups)[h] == groups[h]@);
    assert(listed[g] == group_at(g as nat, items[g]) && listed[h] == group_at(h as nat, items[h]));
    let all = final_groups(infos@, raw.groups@);
    let ids = ids_of(routed(infos@, false));
    let left = omitted(ids, mentions(raw.groups@));
    lemma_backfill(infos@, raw.groups@);
    lemma_tier(all, Tier::Backfill);
    let a = in_tier(all, Tier::Focus).len() as int;
    let skims = in_tier(all, Tier::Skim);
    let sorted = skim_order(all, infos@);
    let b = a + sorted.len();
    let noise = ids_of(routed(infos@, true));
    let c = b + (if noise.len() > 0 {
        1int
    } else {
        0int
    });
    let back = in_tier(all, Tier::Backfill);
    assert(items.len() == c + back.len());
    assert forall|k: int| 0 <= k < items.len() implies (#[trigger] items[k]).1 == (if a <= k < b {
        Effort::Skim
    } else if b <= k < c {
        Effort::Noise
    } else {
        Effort::Focus
    }) by {}
    if groups[g].effort != Effort::Focus && groups[h].effort == Effort::Focus {
        let e = back[h - c];
        let k = choose|k: int| 0 <= k < all.len() && all[k] == e;
        assert(all[k].backfill);
        assert(left.len() > 0);
        let id = left[0];
        assert(left.contains(id));
        lemma_left_out(ids, mentions(raw.groups@), id);
        lemma_offered(routed(infos@, false), id);
        lemma_mentions(raw.groups@, id);
        assert(is_offered(routed(infos@, false), id) && !is_answered(raw.groups@, id));
    }
    if groups[g].effort == Effort::Skim && groups[h].effort == Effort::Skim {
        let more = |x: WorkGroupView, y: WorkGroupView|
            hunks_in(infos@, x.class_ids) > hunks_in(infos@, y.class_ids);
        let lt = |i: int, j: int| more(skims[i], skims[j]);
        lemma_tier_len(all, Tier::Skim);
        lemma_stable_exists(skims.len(), lt);
        let perm = stable_perm(skims.len() as int, lt);
        let (i, j) = (g - a, h - a);
        assert(items[g].0 == sorted[i] && items[h].0 == sorted[j]);
        assert(sorted[i] == skims[perm[i] as int] && sorted[j] == skims[perm[j] as int]);
        assert(stable_before(lt, perm[i] as int, perm[j] as int));
        assert(lt(perm[j] as int, perm[i] as int) == more(sorted[j], sorted[i]));
        assert(lt(perm[i] as int, perm[j] as int) == more(sorted[i], sorted[j]));
    }
}

/// Whether a class with an id is to be triaged: not all of it is generated.
pub open spec fn is_triaged(infos: Seq<ClassInfo>, id: Seq<char>) -> bool {
    exists|c: int|
        0 <= c < infos.len() && (#[trigger] infos[c]).id@ == id && !infos[c].all_generated
}

proof fn lemma_triaged(infos: Seq<ClassInfo>, id: Seq<char>)
    ensures
        is_offered(routed(infos, false), id) <==> is_triaged(infos, id),
    decreases infos.len(),
{
    let all = routed(infos, false);
    if infos.len() > 0 {
        let fewer = infos.drop_last();
        let before = routed(fewer, false);
        lemma_triaged(fewer, id);
        assert(infos.last() == infos[infos.len() - 1]);
        if is_triaged(fewer, id) {
            let c = choose|c: int|
                0 <= c < fewer.len() && (#[trigger] fewer[c]).id@ == id && !fewer[c].all_generated;
            assert(infos[c] == fewer[c]);
            let k = choose|k: int| 0 <= k < before.len() && (#[trigger] before[k]).id@ == id;
            assert(all[k] == before[k]);
        }
        if is_triaged(infos, id) {
            let c = choose|c: int|
                0 <= c < infos.len() && (#[trigger] infos[c]).id@ == id && !infos[c].all_generated;
            if c < fewer.len() {
                assert(fewer[c] == infos[c]);
            } else {
                assert(all[before.len() as int].id@ == id);
            }
        }
        if is_offered(all, id) {
            let k = choose|k: int| 0 <= k < all.len() && (#[trigger] all[k]).id@ == id;
            if k < before.len() {
                assert(before[k] == all[k]);
            }
        }
    }
}

/// The document says of the answer what the audit found: whether a class was left out,
/// which ones were named twice, and, where something was asked, which names mean nothing.
pub proof fn law_the_document_says_what_the_audit_found(
    doc: PlanDocument,
    infos: Vec<ClassInfo>,
    raw: RawGroups,
    r: PlanDocument,
    id: Seq<char>,
)
    requires
        call_ensures(run, (doc, &infos, raw), r),
        infos@.len() <= u32::MAX,
    ensures
        r.audit.classes_missing is Some,
        r.audit.classes_duplicated is Some,
        r.audit.classes_hallucinated is Some,
        r.audit.classes_missing->0 > 0 <==> exists|x: Seq<char>|
            is_triaged(infos@, x) && !#[trigger] is_answered(raw.groups@, x),
        texts(r.audit.classes_duplicated->0@).contains(id) <==> is_triaged(infos@, id)
            && is_answered_twice(raw.groups@, id),
        texts(r.audit.classes_hallucinated->0@).contains(id) <==> is_answered(raw.groups@, id)
            && !is_triaged(infos@, id) && exists|c: int|
            0 <= c < infos@.len() && !(#[trigger] infos@[c]).all_generated,
{
    let offered = routed(infos@, false);
    let ids = ids_of(offered);
    let m = mentions(raw.groups@);
    let left = omitted(ids, m);
    assert(is_grouped(doc, infos@, raw.groups@, r));
    lemma_mentions(raw.groups@, id);
    lemma_repeated(m, ids, id);
    lemma_offered(offered, id);
    lemma_triaged(infos@, id);
    lemma_left_len(ids, m);
    lemma_routed_len(infos@);
    if left.len() > 0 {
        let x = left[0];
        assert(left.contains(x));
        lemma_left_out(ids, m, x);
        lemma_offered(offered, x);
        lemma_triaged(infos@, x);
        lemma_mentions(raw.groups@, x);
        assert(is_triaged(infos@, x) && !is_answered(raw.groups@, x));
    }
    if exists|x: Seq<char>| is_triaged(infos@, x) && !#[trigger] is_answered(raw.groups@, x) {
        let x = choose|x: Seq<char>|
            is_triaged(infos@, x) && !#[trigger] is_answered(raw.groups@, x);
        lemma_left_out(ids, m, x);
        lemma_offered(offered, x);
        lemma_triaged(infos@, x);
        lemma_mentions(raw.groups@, x);
        assert(left.contains(x));
        assert(left.len() > 0);
    }
    if ids.len() > 0 {
        let x = offered[0].id@;
        lemma_triaged(infos@, x);
        assert(is_offered(offered, x));
        let c = choose|c: int|
            0 <= c < infos@.len() && (#[trigger] infos@[c]).id@ == x && !infos@[c].all_generated;
    }
    if exists|c: int| 0 <= c < infos@.len() && !(#[trigger] infos@[c]).all_generated {
        let c = choose|c: int| 0 <= c < infos@.len() && !(#[trigger] infos@[c]).all_generated;
        lemma_triaged(infos@, infos@[c].id@);
        assert(offered.len() > 0);
    }
}

proof fn lemma_left_len(ids: Seq<Seq<char>>, m: Seq<Seq<char>>)
    ensures
        omitted(ids, m).len() <= ids.len(),
    decreases ids.len(),
{
    if ids.len() > 0 {
        lemma_left_len(ids.drop_last(), m);
    }
}

proof fn lemma_routed_len(infos: Seq<ClassInfo>)
    ensures
        routed(infos, false).len() <= infos.len(),
    decreases infos.len(),
{
    if infos.len() > 0 {
        lemma_routed_len(infos.drop_last());
    }
}

} // verus!
