//! The relocation gate: a class touching a rename below the threshold is a
//! modification, not a relocation, and can never stay in a skim group. Runs
//! after the audit, whatever the model claimed.
use vstd::prelude::*;

use crate::grouping::{carried, work_views, ClassInfo, WorkGroup, WorkGroupView};
use crate::seqs::texts;
use crate::text::contains_text;

verus! {

/// The ids of the classes that touch a rename below the threshold.
pub open spec fn gated_ids(infos: Seq<ClassInfo>) -> Seq<Seq<char>>
    decreases infos.len(),
{
    if infos.len() == 0 {
        Seq::empty()
    } else if infos.last().rename_gated {
        gated_ids(infos.drop_last()).push(infos.last().id@)
    } else {
        gated_ids(infos.drop_last())
    }
}

/// The ids that are in a list (`inside`), or those that are not, in order.
pub open spec fn sifted(ids: Seq<Seq<char>>, list: Seq<Seq<char>>, inside: bool) -> Seq<Seq<char>>
    decreases ids.len(),
{
    if ids.len() == 0 {
        Seq::empty()
    } else if list.contains(ids.last()) == inside {
        sifted(ids.drop_last(), list, inside).push(ids.last())
    } else {
        sifted(ids.drop_last(), list, inside)
    }
}

/// A group without its gated classes, if it is a skim group.
pub open spec fn ungated(g: WorkGroupView, gated: Seq<Seq<char>>) -> WorkGroupView {
    if g.skim {
        WorkGroupView { class_ids: sifted(g.class_ids, gated, false), ..g }
    } else {
        g
    }
}

/// The groups without the gated classes of skim groups; an empty group is
/// dropped.
pub open spec fn ungated_groups(
    groups: Seq<WorkGroupView>,
    gated: Seq<Seq<char>>,
) -> Seq<WorkGroupView>
    decreases groups.len(),
{
    if groups.len() == 0 {
        Seq::empty()
    } else {
        let before = ungated_groups(groups.drop_last(), gated);
        let g = ungated(groups.last(), gated);
        if g.class_ids.len() == 0 {
            before
        } else {
            before.push(g)
        }
    }
}

/// The gated classes of the skim groups, in order.
pub open spec fn extracted(groups: Seq<WorkGroupView>, gated: Seq<Seq<char>>) -> Seq<Seq<char>>
    decreases groups.len(),
{
    if groups.len() == 0 {
        Seq::empty()
    } else {
        extracted(groups.drop_last(), gated) + if groups.last().skim {
            sifted(groups.last().class_ids, gated, true)
        } else {
            Seq::empty()
        }
    }
}

/// The focus group that takes the gated classes.
pub open spec fn moved_group(ids: Seq<Seq<char>>) -> WorkGroupView {
    WorkGroupView {
        label: "Modified during move"@,
        description:
            "Renamed files below the 95% relocation threshold: rewritten during the move, not relocated verbatim."@,
        reason:
            "Rename-similarity gate: a low-similarity rename is a modification and is never skim-eligible."@,
        skim: false,
        class_ids: ids,
        backfill: false,
    }
}

/// The groups once relocations are held back.
pub open spec fn gated_groups(
    groups: Seq<WorkGroupView>,
    gated: Seq<Seq<char>>,
) -> Seq<WorkGroupView> {
    if gated.len() == 0 {
        groups
    } else if extracted(groups, gated).len() == 0 {
        ungated_groups(groups, gated)
    } else {
        ungated_groups(groups, gated).push(moved_group(extracted(groups, gated)))
    }
}

fn sift(ids: &Vec<String>, list: &Vec<String>, inside: bool) -> (r: Vec<String>)
    ensures
        texts(r@) == sifted(texts(ids@), texts(list@), inside),
{
    let mut out: Vec<String> = Vec::new();
    let ghost all = texts(ids@);
    assert(texts(out@) =~= sifted(all.take(0), texts(list@), inside));
    for i in 0..ids.len()
        invariant
            all == texts(ids@),
            texts(out@) == sifted(all.take(i as int), texts(list@), inside),
    {
        assert(all.take(i + 1).drop_last() =~= all.take(i as int));
        if contains_text(list, &ids[i]) == inside {
            let ghost had = texts(out@);
            out.push(ids[i].clone());
            assert(texts(out@) =~= had.push(all[i as int]));
        }
    }
    assert(all.take(all.len() as int) =~= all);
    out
}

/// Take the gated classes out of the skim groups and put them into a focus group
/// of their own.
pub fn apply_relocation_gate(groups: Vec<WorkGroup>, infos: &[ClassInfo]) -> (r: Vec<WorkGroup>)
    ensures
        work_views(r@) == gated_groups(work_views(groups@), gated_ids(infos@)),
{
    let mut gated: Vec<String> = Vec::new();
    assert(texts(gated@) =~= gated_ids(infos@.take(0)));
    for i in 0..infos.len()
        invariant
            texts(gated@) == gated_ids(infos@.take(i as int)),
    {
        assert(infos@.take(i + 1).drop_last() =~= infos@.take(i as int));
        if infos[i].rename_gated {
            let ghost had = texts(gated@);
            gated.push(infos[i].id.clone());
            assert(texts(gated@) =~= had.push(infos@[i as int].id@));
        }
    }
    assert(infos@.take(infos@.len() as int) =~= infos@);
    if gated.len() == 0 {
        assert(texts(gated@).len() == 0);
        return groups;
    }
    let ghost list = texts(gated@);
    let ghost was = work_views(groups@);
    let mut out: Vec<WorkGroup> = Vec::new();
    let mut taken: Vec<String> = Vec::new();
    assert(work_views(out@) =~= ungated_groups(was.take(0), list));
    assert(texts(taken@) =~= extracted(was.take(0), list));
    for i in 0..groups.len()
        invariant
            list == texts(gated@),
            was == work_views(groups@),
            work_views(out@) == ungated_groups(was.take(i as int), list),
            texts(taken@) == extracted(was.take(i as int), list),
    {
        let g = &groups[i];
        proof {
            assert(was.take(i + 1).drop_last() =~= was.take(i as int));
            assert(was.take(i + 1).last() == g@);
        }
        let class_ids = if g.skim {
            let mut leaving = sift(&g.class_ids, &gated, true);
            let ghost had = texts(taken@);
            let ghost more = texts(leaving@);
            taken.append(&mut leaving);
            assert(texts(taken@) =~= had + more);
            sift(&g.class_ids, &gated, false)
        } else {
            assert(texts(taken@) + Seq::<Seq<char>>::empty() =~= texts(taken@));
            crate::text::copy_texts(&g.class_ids)
        };
        assert(texts(class_ids@) == ungated(g@, list).class_ids);
        if class_ids.len() > 0 {
            let ghost had = work_views(out@);
            let work = WorkGroup {
                label: g.label.clone(),
                description: g.description.clone(),
                reason: g.reason.clone(),
                skim: g.skim,
                class_ids,
                backfill: g.backfill,
            };
            let ghost made = work@;
            out.push(work);
            assert(made =~= ungated(g@, list));
            assert(work_views(out@) =~= had.push(made));
        } else {
            assert(texts(class_ids@).len() == 0);
        }
    }
    assert(was.take(was.len() as int) =~= was);
    if taken.len() > 0 {
        let ghost had = work_views(out@);
        let ghost ids = texts(taken@);
        let work = WorkGroup {
            label: "Modified during move".to_owned(),
            description:
                "Renamed files below the 95% relocation threshold: rewritten during the move, not relocated verbatim.".to_owned(),
            reason:
                "Rename-similarity gate: a low-similarity rename is a modification and is never skim-eligible.".to_owned(),
            skim: false,
            class_ids: taken,
            backfill: false,
        };
        let ghost made = work@;
        out.push(work);
        assert(made =~= moved_group(ids));
        assert(work_views(out@) =~= had.push(made));
    } else {
        assert(texts(taken@).len() == 0);
    }
    out
}

/// No class that touches a rename below the threshold is left in a skim group.
pub proof fn law_gated_class_is_never_skimmed(
    groups: Seq<WorkGroupView>,
    gated: Seq<Seq<char>>,
    g: int,
    id: Seq<char>,
)
    requires
        gated.contains(id),
        0 <= g < gated_groups(groups, gated).len(),
        gated_groups(groups, gated)[g].skim,
    ensures
        !gated_groups(groups, gated)[g].class_ids.contains(id),
{
    lemma_no_gated_skim(groups, gated, id);
    if g < ungated_groups(groups, gated).len() {
        assert(gated_groups(groups, gated)[g] == ungated_groups(groups, gated)[g]);
    }
}

proof fn lemma_no_gated_skim(groups: Seq<WorkGroupView>, gated: Seq<Seq<char>>, id: Seq<char>)
    requires
        gated.contains(id),
    ensures
        forall|g: int|
            0 <= g < ungated_groups(groups, gated).len() && (#[trigger] ungated_groups(
                groups,
                gated,
            )[g]).skim ==> !ungated_groups(groups, gated)[g].class_ids.contains(id),
    decreases groups.len(),
{
    if groups.len() > 0 {
        lemma_no_gated_skim(groups.drop_last(), gated, id);
        lemma_sifted_out(groups.last().class_ids, gated, id);
        let before = ungated_groups(groups.drop_last(), gated);
        let now = ungated_groups(groups, gated);
        assert forall|g: int| 0 <= g < now.len() && (#[trigger] now[g]).skim implies !now[g].class_ids.contains(
            id,
        ) by {
            if g < before.len() {
                assert(now[g] == before[g]);
            }
        }
    }
}

proof fn lemma_sifted_out(ids: Seq<Seq<char>>, gated: Seq<Seq<char>>, id: Seq<char>)
    requires
        gated.contains(id),
    ensures
        !sifted(ids, gated, false).contains(id),
    decreases ids.len(),
{
    if ids.len() > 0 {
        lemma_sifted_out(ids.drop_last(), gated, id);
        let a = sifted(ids.drop_last(), gated, false);
        let b = sifted(ids, gated, false);
        if b.contains(id) {
            let k = choose|k: int| 0 <= k < b.len() && b[k] == id;
            if k < a.len() {
                assert(a[k] == id);
            }
        }
    }
}

/// Holding relocations back only moves classes: it loses none, adds none and repeats none.
pub proof fn law_gate_keeps_every_class(groups: Seq<WorkGroupView>, gated: Seq<Seq<char>>)
    ensures
        carried(gated_groups(groups, gated)).to_multiset() == carried(groups).to_multiset(),
{
    if gated.len() > 0 {
        lemma_gate_multiset(groups, gated);
        let u = ungated_groups(groups, gated);
        let e = extracted(groups, gated);
        if e.len() == 0 {
            e.to_multiset_ensures();
            assert(carried(u) + e =~= carried(u));
            vstd::seq_lib::lemma_multiset_commutative(carried(u), e);
        } else {
            let all = gated_groups(groups, gated);
            assert(all.drop_last() =~= u);
            vstd::seq_lib::lemma_multiset_commutative(carried(u), e);
        }
    }
}

proof fn lemma_gate_multiset(groups: Seq<WorkGroupView>, gated: Seq<Seq<char>>)
    ensures
        carried(ungated_groups(groups, gated)).to_multiset().add(
            extracted(groups, gated).to_multiset(),
        ) == carried(groups).to_multiset(),
    decreases groups.len(),
{
    let none = Seq::<Seq<char>>::empty();
    none.to_multiset_ensures();
    if groups.len() == 0 {
        vstd::seq_lib::lemma_multiset_commutative(none, none);
        assert(none + none =~= none);
    } else {
        let p = groups.drop_last();
        lemma_gate_multiset(p, gated);
        let last = groups.last();
        let kept = ungated(last, gated).class_ids;
        let out = if last.skim {
            sifted(last.class_ids, gated, true)
        } else {
            none
        };
        lemma_sift_multiset(last.class_ids, gated);
        vstd::seq_lib::lemma_multiset_commutative(kept, out);
        if !last.skim {
            assert(kept + out =~= last.class_ids);
        }
        assert(kept.to_multiset().add(out.to_multiset()) == last.class_ids.to_multiset());
        let u = ungated_groups(p, gated);
        let now = ungated_groups(groups, gated);
        if kept.len() == 0 {
            assert(carried(now) =~= carried(u) + kept);
        } else {
            assert(now.drop_last() =~= u);
            assert(carried(now) =~= carried(u) + kept);
        }
        vstd::seq_lib::lemma_multiset_commutative(carried(u), kept);
        vstd::seq_lib::lemma_multiset_commutative(extracted(p, gated), out);
        vstd::seq_lib::lemma_multiset_commutative(carried(p), last.class_ids);
        assert(carried(now).to_multiset().add(extracted(groups, gated).to_multiset())
            =~= carried(groups).to_multiset());
    }
}

proof fn lemma_sift_multiset(ids: Seq<Seq<char>>, gated: Seq<Seq<char>>)
    ensures
        sifted(ids, gated, false).to_multiset().add(sifted(ids, gated, true).to_multiset())
            == ids.to_multiset(),
    decreases ids.len(),
{
    if ids.len() == 0 {
        ids.to_multiset_ensures();
        assert(sifted(ids, gated, false) =~= ids);
        assert(sifted(ids, gated, true) =~= ids);
        vstd::seq_lib::lemma_multiset_commutative(ids, ids);
        assert(ids + ids =~= ids);
    } else {
        let p = ids.drop_last();
        lemma_sift_multiset(p, gated);
        p.to_multiset_ensures();
        sifted(p, gated, false).to_multiset_ensures();
        sifted(p, gated, true).to_multiset_ensures();
        assert(ids =~= p.push(ids.last()));
        assert(sifted(ids, gated, false).to_multiset().add(sifted(ids, gated, true).to_multiset())
            =~= ids.to_multiset());
    }
}

} // verus!
