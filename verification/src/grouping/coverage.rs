//! Coverage is structural: whatever the model answers, every class stands in exactly
//! one group of the reading plan, and every hunk is counted as read or as skipped.
use vstd::prelude::*;

use super::assemble::{
    hunk_total, hunks_in, hunks_of, in_tier, info_names, lemma_tier_len, noise_group, skim_order,
    tagged, tiers, Tier,
};
use super::gate::{gated_ids, law_gate_keeps_every_class, ungated_groups};
use super::parse::RawGroup;
use super::{
    all_hunks, audited_groups, carried, final_groups, groupable, ids_of, kept_groups,
    law_audit_covers_every_class_once, lemma_routed_part, lemma_sum_remove,
    lemma_sum_shrink, routed, ClassInfo, WorkGroupView,
};
use crate::schema::Effort;
use crate::seqs::{is_order, lemma_sorted_multiset};

verus! {

/// The groups of the reading plan.
pub open spec fn plan_items(infos: Seq<ClassInfo>, raw: Seq<RawGroup>) -> Seq<
    (WorkGroupView, Effort),
> {
    tiers(final_groups(infos, raw), ids_of(routed(infos, true)), infos)
}

/// The groups without their effort.
pub open spec fn bare(items: Seq<(WorkGroupView, Effort)>) -> Seq<WorkGroupView> {
    items.map_values(|x: (WorkGroupView, Effort)| x.0)
}

proof fn lemma_carried_concat(a: Seq<WorkGroupView>, b: Seq<WorkGroupView>)
    ensures
        carried(a + b) == carried(a) + carried(b),
    decreases b.len(),
{
    if b.len() == 0 {
        assert(a + b =~= a);
        assert(carried(a) + carried(b) =~= carried(a));
    } else {
        lemma_carried_concat(a, b.drop_last());
        assert((a + b).drop_last() =~= a + b.drop_last());
        assert(carried(a + b) =~= carried(a) + carried(b));
    }
}

/// The multiset of two lists, one behind the other.
proof fn lemma_concat(a: Seq<Seq<char>>, b: Seq<Seq<char>>)
    ensures
        (a + b).to_multiset() == a.to_multiset().add(b.to_multiset()),
{
    vstd::seq_lib::lemma_multiset_commutative(a, b);
}

/// What groups carry without one of them.
proof fn lemma_carried_remove(groups: Seq<WorkGroupView>, i: int)
    requires
        0 <= i < groups.len(),
    ensures
        carried(groups).to_multiset() == carried(groups.remove(i)).to_multiset().add(
            groups[i].class_ids.to_multiset(),
        ),
    decreases groups.len(),
{
    let last = groups.last().class_ids;
    lemma_concat(carried(groups.drop_last()), last);
    if i == groups.len() - 1 {
        assert(groups.remove(i) =~= groups.drop_last());
    } else {
        lemma_carried_remove(groups.drop_last(), i);
        let rest = groups.remove(i);
        assert(rest.drop_last() =~= groups.drop_last().remove(i));
        assert(rest.last() == groups.last());
        lemma_concat(carried(rest.drop_last()), last);
        assert(carried(groups).to_multiset() =~= carried(rest).to_multiset().add(
            groups[i].class_ids.to_multiset(),
        ));
    }
}

/// Groups in another order carry the same classes.
proof fn lemma_carried_permuted(a: Seq<WorkGroupView>, b: Seq<WorkGroupView>)
    requires
        a.to_multiset() == b.to_multiset(),
    ensures
        carried(a).to_multiset() == carried(b).to_multiset(),
    decreases b.len(),
{
    a.to_multiset_ensures();
    b.to_multiset_ensures();
    assert(a.len() == b.len());
    if b.len() > 0 {
        let x = b.last();
        assert(b.contains(x));
        assert(b.to_multiset().count(x) > 0);
        assert(a.to_multiset().count(x) > 0);
        assert(a.contains(x));
        let i = choose|i: int| 0 <= i < a.len() && a[i] == x;
        assert(b.remove(b.len() - 1) =~= b.drop_last());
        lemma_carried_permuted(a.remove(i), b.drop_last());
        lemma_carried_remove(a, i);
        lemma_carried_remove(b, b.len() - 1);
    }
}

/// The three tiers together carry what all groups carry.
proof fn lemma_tiers_split(groups: Seq<WorkGroupView>)
    ensures
        carried(in_tier(groups, Tier::Focus)).to_multiset().add(
            carried(in_tier(groups, Tier::Skim)).to_multiset(),
        ).add(carried(in_tier(groups, Tier::Backfill)).to_multiset())
            == carried(groups).to_multiset(),
    decreases groups.len(),
{
    let none = Seq::<Seq<char>>::empty();
    none.to_multiset_ensures();
    if groups.len() == 0 {
        assert(none.to_multiset().add(none.to_multiset()).add(none.to_multiset())
            =~= none.to_multiset());
    } else {
        let p = groups.drop_last();
        let g = groups.last();
        lemma_tiers_split(p);
        lemma_concat(carried(p), g.class_ids);
        let (f, s, b) = (
            in_tier(p, Tier::Focus),
            in_tier(p, Tier::Skim),
            in_tier(p, Tier::Backfill),
        );
        lemma_carried_push(f, g);
        lemma_carried_push(s, g);
        lemma_carried_push(b, g);
        assert(carried(in_tier(groups, Tier::Focus)).to_multiset().add(
            carried(in_tier(groups, Tier::Skim)).to_multiset(),
        ).add(carried(in_tier(groups, Tier::Backfill)).to_multiset()) =~= carried(
            groups,
        ).to_multiset());
    }
}

proof fn lemma_carried_push(groups: Seq<WorkGroupView>, g: WorkGroupView)
    ensures
        carried(groups.push(g)).to_multiset() == carried(groups).to_multiset().add(
            g.class_ids.to_multiset(),
        ),
{
    assert(groups.push(g).drop_last() =~= groups);
    lemma_concat(carried(groups), g.class_ids);
}

/// The two routes together list every class.
proof fn lemma_routes_split(infos: Seq<ClassInfo>)
    ensures
        ids_of(routed(infos, false)).to_multiset().add(ids_of(routed(infos, true)).to_multiset())
            == info_names(infos).to_multiset(),
    decreases infos.len(),
{
    let none = Seq::<Seq<char>>::empty();
    none.to_multiset_ensures();
    if infos.len() == 0 {
        assert(ids_of(routed(infos, false)) =~= none);
        assert(ids_of(routed(infos, true)) =~= none);
        assert(info_names(infos) =~= none);
        assert(none.to_multiset().add(none.to_multiset()) =~= none.to_multiset());
    } else {
        let p = infos.drop_last();
        let x = infos.last();
        lemma_routes_split(p);
        let a = ids_of(routed(p, false));
        let b = ids_of(routed(p, true));
        assert(info_names(infos) =~= info_names(p).push(x.id@));
        info_names(p).to_multiset_ensures();
        a.to_multiset_ensures();
        b.to_multiset_ensures();
        if x.all_generated {
            assert(ids_of(routed(infos, true)) =~= b.push(x.id@));
            assert(ids_of(routed(infos, false)) =~= a);
        } else {
            assert(ids_of(routed(infos, false)) =~= a.push(x.id@));
            assert(ids_of(routed(infos, true)) =~= b);
        }
        assert(ids_of(routed(infos, false)).to_multiset().add(
            ids_of(routed(infos, true)).to_multiset(),
        ) =~= info_names(infos).to_multiset());
    }
}

proof fn lemma_lengths(raw: Seq<RawGroup>, ids: Seq<Seq<char>>)
    ensures
        kept_groups(raw, ids).len() <= raw.len(),
    decreases raw.len(),
{
    if raw.len() > 0 {
        lemma_lengths(raw.drop_last(), ids);
    }
}

proof fn lemma_ungated_len(groups: Seq<WorkGroupView>, gated: Seq<Seq<char>>)
    ensures
        ungated_groups(groups, gated).len() <= groups.len(),
    decreases groups.len(),
{
    if groups.len() > 0 {
        lemma_ungated_len(groups.drop_last(), gated);
    }
}

/// The groups that the stage makes carry every offered class once.
proof fn lemma_final_groups(infos: Seq<ClassInfo>, raw: Seq<RawGroup>)
    requires
        groupable(infos),
    ensures
        carried(final_groups(infos, raw)).to_multiset() == ids_of(
            routed(infos, false),
        ).to_multiset(),
        final_groups(infos, raw).len() <= raw.len() + 2,
{
    let ids = ids_of(routed(infos, false));
    let gated = gated_ids(infos);
    lemma_routed_part(infos, false);
    let audited = if ids.len() == 0 {
        Seq::empty()
    } else {
        audited_groups(raw, ids)
    };
    law_gate_keeps_every_class(audited, gated);
    lemma_lengths(raw, ids);
    lemma_ungated_len(audited, gated);
    if ids.len() == 0 {
        assert(carried(audited) =~= ids);
    } else {
        law_audit_covers_every_class_once(raw, ids);
        let all = carried(audited);
        lemma_sets_agree(all, ids);
    }
}

/// Two lists without repetitions that hold the same are the same multiset.
proof fn lemma_sets_agree(a: Seq<Seq<char>>, b: Seq<Seq<char>>)
    requires
        a.no_duplicates(),
        b.no_duplicates(),
        forall|x: Seq<char>| a.contains(x) <==> #[trigger] b.contains(x),
    ensures
        a.to_multiset() == b.to_multiset(),
{
    a.to_multiset_ensures();
    b.to_multiset_ensures();
    a.lemma_multiset_has_no_duplicates();
    b.lemma_multiset_has_no_duplicates();
    assert forall|x: Seq<char>| a.to_multiset().count(x) == b.to_multiset().count(x) by {
        assert(a.contains(x) <==> a.to_multiset().count(x) > 0);
        assert(b.contains(x) <==> b.to_multiset().count(x) > 0);
        if b.contains(x) {
            assert(a.to_multiset().contains(x));
            assert(b.to_multiset().contains(x));
        }
    }
    assert(a.to_multiset() =~= b.to_multiset());
}

/// Every class stands in exactly one group of the reading plan, whatever the model
/// answers: nothing is left out, nothing is repeated, nothing is made up.
pub proof fn law_every_class_is_in_one_group(infos: Seq<ClassInfo>, raw: Seq<RawGroup>)
    requires
        groupable(infos),
        final_groups(infos, raw).len() <= usize::MAX,
    ensures
        carried(bare(plan_items(infos, raw))).to_multiset() == info_names(infos).to_multiset(),
{
    let groups = final_groups(infos, raw);
    let noise = ids_of(routed(infos, true));
    lemma_final_groups(infos, raw);
    lemma_routes_split(infos);
    lemma_tiers_split(groups);
    lemma_tier_len(groups, Tier::Skim);
    let skims = in_tier(groups, Tier::Skim);
    let more = |a: WorkGroupView, b: WorkGroupView|
        hunks_in(infos, a.class_ids) > hunks_in(infos, b.class_ids);
    assert(is_order(skims.len() as int, |i: int, j: int| more(skims[i], skims[j])));
    lemma_sorted_multiset(skims, more);
    lemma_carried_permuted(skim_order(groups, infos), skims);
    let a = tagged(in_tier(groups, Tier::Focus), Effort::Focus);
    let b = tagged(skim_order(groups, infos), Effort::Skim);
    let c = if noise.len() > 0 {
        seq![(noise_group(noise), Effort::Noise)]
    } else {
        Seq::empty()
    };
    let d = tagged(in_tier(groups, Tier::Backfill), Effort::Focus);
    let items = plan_items(infos, raw);
    assert(bare(items) =~= bare(a) + bare(b) + bare(c) + bare(d));
    assert(bare(a) =~= in_tier(groups, Tier::Focus));
    assert(bare(b) =~= skim_order(groups, infos));
    assert(bare(d) =~= in_tier(groups, Tier::Backfill));
    lemma_carried_concat(bare(a) + bare(b) + bare(c), bare(d));
    lemma_carried_concat(bare(a) + bare(b), bare(c));
    lemma_carried_concat(bare(a), bare(b));
    lemma_concat(carried(bare(a)) + carried(bare(b)) + carried(bare(c)), carried(bare(d)));
    lemma_concat(carried(bare(a)) + carried(bare(b)), carried(bare(c)));
    lemma_concat(carried(bare(a)), carried(bare(b)));
    noise.to_multiset_ensures();
    if noise.len() > 0 {
        assert(bare(c) =~= seq![noise_group(noise)]);
        assert(bare(c).drop_last() =~= Seq::<WorkGroupView>::empty());
        assert(carried(bare(c).drop_last()) =~= Seq::<Seq<char>>::empty());
        assert(bare(c).last().class_ids == noise);
        assert(carried(bare(c)) =~= noise);
    } else {
        assert(bare(c) =~= Seq::<WorkGroupView>::empty());
        assert(carried(bare(c)) =~= noise);
    }
    assert(carried(bare(items)).to_multiset() =~= info_names(infos).to_multiset());
}

proof fn lemma_hunks_concat(infos: Seq<ClassInfo>, a: Seq<Seq<char>>, b: Seq<Seq<char>>)
    ensures
        hunks_in(infos, a + b) == hunks_in(infos, a) + hunks_in(infos, b),
    decreases b.len(),
{
    if b.len() == 0 {
        assert(a + b =~= a);
    } else {
        lemma_hunks_concat(infos, a, b.drop_last());
        assert((a + b).drop_last() =~= a + b.drop_last());
    }
}

proof fn lemma_total_is_carried(items: Seq<(WorkGroupView, Effort)>, infos: Seq<ClassInfo>)
    ensures
        hunk_total(items, infos) == hunks_in(infos, carried(bare(items))),
    decreases items.len(),
{
    if items.len() > 0 {
        lemma_total_is_carried(items.drop_last(), infos);
        assert(bare(items).drop_last() =~= bare(items.drop_last()));
        lemma_hunks_concat(infos, carried(bare(items.drop_last())), items.last().0.class_ids);
    }
}

proof fn lemma_hunks_permuted(infos: Seq<ClassInfo>, a: Seq<Seq<char>>, b: Seq<Seq<char>>)
    requires
        a.to_multiset() == b.to_multiset(),
    ensures
        hunks_in(infos, a) == hunks_in(infos, b),
    decreases b.len(),
{
    a.to_multiset_ensures();
    b.to_multiset_ensures();
    assert(a.len() == b.len());
    if b.len() > 0 {
        let x = b.last();
        assert(b.contains(x));
        assert(b.to_multiset().count(x) > 0);
        assert(a.to_multiset().count(x) > 0);
        assert(a.contains(x));
        let i = choose|i: int| 0 <= i < a.len() && a[i] == x;
        assert(b.remove(b.len() - 1) =~= b.drop_last());
        lemma_hunks_permuted(infos, a.remove(i), b.drop_last());
        lemma_sum_remove(infos, a, i);
    }
}

proof fn lemma_all_hunks(infos: Seq<ClassInfo>)
    requires
        info_names(infos).no_duplicates(),
    ensures
        hunks_in(infos, info_names(infos)) == all_hunks(infos),
    decreases infos.len(),
{
    if infos.len() > 0 {
        let p = infos.drop_last();
        let names = info_names(infos);
        let x = infos.last().id@;
        assert(names.drop_last() =~= info_names(p));
        assert(!info_names(p).contains(x)) by {
            if info_names(p).contains(x) {
                let k = choose|k: int| 0 <= k < info_names(p).len() && info_names(p)[k] == x;
                assert(names[k] == names[names.len() - 1]);
            }
        }
        lemma_all_hunks(p);
        lemma_sum_shrink(infos, info_names(p));
        assert(hunks_of(infos, x) == infos.last().n_hunks);
    }
}

/// Every hunk of the change is in the reading plan once: what is read and what is
/// skipped add up to all hunks.
pub proof fn law_every_hunk_is_read_or_skipped(infos: Seq<ClassInfo>, raw: Seq<RawGroup>)
    requires
        groupable(infos),
        final_groups(infos, raw).len() <= usize::MAX,
    ensures
        hunk_total(plan_items(infos, raw), infos) == all_hunks(infos),
{
    law_every_class_is_in_one_group(infos, raw);
    let items = plan_items(infos, raw);
    lemma_total_is_carried(items, infos);
    lemma_hunks_permuted(infos, carried(bare(items)), info_names(infos));
    lemma_all_hunks(infos);
}

} // verus!
