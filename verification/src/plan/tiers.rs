//! The effort-tier reading rule, in one place: what a reader is asked to read
//! in a group, and what is deliberately withheld.
use vstd::prelude::*;

use crate::plan::ids::{
    class_at, class_numbers, class_ok, group_numbers, group_ok, hunk_number, id_ok, numbers, valid,
    HunkId, PlanIndex,
};
use crate::schema::{class_names, last_pos, lemma_last_pos, Effort, Group, PlanDocument};
use crate::seqs::texts;

verus! {

/// Whether the deferrable half of a group is currently hidden.
#[derive(Debug, Clone, Copy, PartialEq, Eq, Structural)]
pub enum Fold {
    Folded,
    Unfolded,
}

/// Why the deferred half is deferred.
#[derive(Debug, Clone, Copy, PartialEq, Eq, Structural)]
pub enum Deferral {
    /// Nothing is withheld: the focus tier, an unfolded group, or a skim group
    /// whose every shape class is a singleton.
    Nothing,
    /// Remaining members of the shapes the shown exemplars verify.
    SkimRemainder,
    /// Generated content, folded whole.
    FoldedNoise,
}

/// One group split into what to read and what to defer, both in class order.
#[derive(Debug, Clone, PartialEq, Eq)]
pub struct ReadingSplit {
    pub shown: Vec<HunkId>,
    pub deferred: Vec<HunkId>,
    pub deferral: Deferral,
}

impl ReadingSplit {
    /// Every hunk the group carries, shown first.
    pub fn all(&self) -> (r: Vec<HunkId>)
        ensures
            r@ == self.shown@ + self.deferred@,
    {
        let mut out: Vec<HunkId> = Vec::new();
        push_all(&mut out, &self.shown);
        push_all(&mut out, &self.deferred);
        assert(out@ =~= self.shown@ + self.deferred@);
        out
    }
}

/// Append hunks.
pub fn push_all(out: &mut Vec<HunkId>, more: &Vec<HunkId>)
    ensures
        final(out)@ == old(out)@ + more@,
{
    let ghost had = out@;
    for i in 0..more.len()
        invariant
            out@ == had + more@.take(i as int),
    {
        out.push(more[i]);
        assert(out@ =~= had + more@.take(i + 1));
    }
    assert(more@.take(more@.len() as int) =~= more@);
}

/// The exemplar of a class.
pub open spec fn exemplar_number(doc: &PlanDocument, id: Seq<char>) -> int {
    hunk_number(class_at(doc, id).exemplar@)->0 as int
}

/// The exemplars of some classes.
pub open spec fn exemplars(doc: &PlanDocument, ids: Seq<Seq<char>>) -> Seq<int> {
    Seq::new(ids.len(), |k: int| exemplar_number(doc, ids[k]))
}

/// The numbers other than `x`, in order.
pub open spec fn others(s: Seq<int>, x: int) -> Seq<int>
    decreases s.len(),
{
    if s.len() == 0 {
        Seq::empty()
    } else if s.last() == x {
        others(s.drop_last(), x)
    } else {
        others(s.drop_last(), x).push(s.last())
    }
}

/// The members of some classes other than the exemplars, in class order.
pub open spec fn remainder(doc: &PlanDocument, ids: Seq<Seq<char>>) -> Seq<int>
    decreases ids.len(),
{
    if ids.len() == 0 {
        Seq::empty()
    } else {
        remainder(doc, ids.drop_last()) + others(
            class_numbers(doc, ids.last()),
            exemplar_number(doc, ids.last()),
        )
    }
}

/// What a reader reads: everything in a focus group or an unfolded one, one
/// exemplar per class in a skim group, nothing of a folded noise group.
pub open spec fn shown(doc: &PlanDocument, g: Group, fold: Fold) -> Seq<int> {
    let ids = texts(g.class_ids@);
    if fold == Fold::Unfolded {
        group_numbers(doc, ids)
    } else {
        match g.effort {
            Effort::Focus => group_numbers(doc, ids),
            Effort::Skim => exemplars(doc, ids),
            Effort::Noise => Seq::empty(),
        }
    }
}

/// What is deferred: the rest.
pub open spec fn deferred(doc: &PlanDocument, g: Group, fold: Fold) -> Seq<int> {
    let ids = texts(g.class_ids@);
    if fold == Fold::Unfolded {
        Seq::empty()
    } else {
        match g.effort {
            Effort::Focus => Seq::empty(),
            Effort::Skim => remainder(doc, ids),
            Effort::Noise => group_numbers(doc, ids),
        }
    }
}

/// Why it is deferred.
pub open spec fn deferral(doc: &PlanDocument, g: Group, fold: Fold) -> Deferral {
    if fold == Fold::Unfolded {
        Deferral::Nothing
    } else {
        match g.effort {
            Effort::Focus => Deferral::Nothing,
            Effort::Skim => if deferred(doc, g, fold).len() == 0 {
                Deferral::Nothing
            } else {
                Deferral::SkimRemainder
            },
            Effort::Noise => Deferral::FoldedNoise,
        }
    }
}

/// Split a group into its read and deferred halves.
pub fn reading_split(index: &PlanIndex, group: &Group, fold: Fold) -> (r: ReadingSplit)
    requires
        group_ok(&index.document(), *group),
    ensures
        numbers(r.shown@) == shown(&index.document(), *group, fold),
        numbers(r.deferred@) == deferred(&index.document(), *group, fold),
        r.deferral == deferral(&index.document(), *group, fold),
        forall|i: int|
            0 <= i < r.shown@.len() ==> 0 <= (#[trigger] r.shown@[i]).number()
                < index.document().hunks@.len(),
        forall|i: int|
            0 <= i < r.deferred@.len() ==> 0 <= (#[trigger] r.deferred@[i]).number()
                < index.document().hunks@.len(),
{
    let ghost doc = index.document();
    let ghost ids = texts(group.class_ids@);
    let none: Vec<HunkId> = Vec::new();
    assert(numbers(none@) =~= Seq::<int>::empty());
    if fold == Fold::Unfolded {
        return ReadingSplit {
            shown: index.group_hunks(group),
            deferred: none,
            deferral: Deferral::Nothing,
        };
    }
    match group.effort {
        Effort::Focus => ReadingSplit {
            shown: index.group_hunks(group),
            deferred: none,
            deferral: Deferral::Nothing,
        },
        Effort::Noise => ReadingSplit {
            shown: none,
            deferred: index.group_hunks(group),
            deferral: Deferral::FoldedNoise,
        },
        Effort::Skim => {
            let mut shown: Vec<HunkId> = Vec::new();
            let mut rest: Vec<HunkId> = Vec::new();
            assert(numbers(shown@) =~= exemplars(&doc, ids.take(0)));
            assert(numbers(rest@) =~= remainder(&doc, ids.take(0)));
            for k in 0..group.class_ids.len()
                invariant
                    doc == index.document(),
                    group_ok(&doc, *group),
                    ids == texts(group.class_ids@),
                    numbers(shown@) == exemplars(&doc, ids.take(k as int)),
                    numbers(rest@) == remainder(&doc, ids.take(k as int)),
                    forall|i: int|
                        0 <= i < shown@.len() ==> 0 <= (#[trigger] shown@[i]).number()
                            < doc.hunks@.len(),
                    forall|i: int|
                        0 <= i < rest@.len() ==> 0 <= (#[trigger] rest@[i]).number()
                            < doc.hunks@.len(),
            {
                let id = &group.class_ids[k];
                proof {
                    assert(ids.take(k + 1).drop_last() =~= ids.take(k as int));
                    assert(ids.take(k + 1).last() == id@);
                }
                let exemplar = index.exemplar(id);
                let ghost had = numbers(shown@);
                shown.push(exemplar);
                assert(numbers(shown@) =~= had.push(exemplar.number()));
                assert(numbers(shown@) =~= exemplars(&doc, ids.take(k + 1)));
                let members = index.class_hunks(id);
                let ghost before = numbers(rest@);
                let ghost m = numbers(members@);
                assert(before + others(m.take(0), exemplar.number()) =~= before);
                for j in 0..members.len()
                    invariant
                        m == numbers(members@),
                        numbers(rest@) == before + others(m.take(j as int), exemplar.number()),
                        forall|i: int|
                            0 <= i < members@.len() ==> 0 <= (#[trigger] members@[i]).number()
                                < doc.hunks@.len(),
                        forall|i: int|
                            0 <= i < rest@.len() ==> 0 <= (#[trigger] rest@[i]).number()
                                < doc.hunks@.len(),
                {
                    let h = members[j];
                    let ghost now = numbers(rest@);
                    proof {
                        assert(m.take(j + 1).drop_last() =~= m.take(j as int));
                        assert(m.take(j + 1).last() == h.number());
                    }
                    if h.index() != exemplar.index() {
                        rest.push(h);
                        assert(numbers(rest@) =~= now.push(h.number()));
                        assert(numbers(rest@) =~= before + others(
                            m.take(j + 1),
                            exemplar.number(),
                        ));
                    }
                }
                assert(m.take(m.len() as int) =~= m);
            }
            assert(ids.take(ids.len() as int) =~= ids);
            assert(numbers(rest@).len() == rest@.len());
            let deferral = if rest.len() == 0 {
                Deferral::Nothing
            } else {
                Deferral::SkimRemainder
            };
            ReadingSplit { shown, deferred: rest, deferral }
        },
    }
}

/// Nothing is lost in the split: a hunk of the group is shown or deferred, and
/// what is shown or deferred is a hunk of the group or an exemplar of one of its
/// classes.
pub proof fn law_split_covers_the_group(doc: &PlanDocument, g: Group, fold: Fold, h: int)
    ensures
        group_numbers(doc, texts(g.class_ids@)).contains(h) ==> (shown(doc, g, fold)
            + deferred(doc, g, fold)).contains(h),
        (shown(doc, g, fold) + deferred(doc, g, fold)).contains(h) ==> group_numbers(
            doc,
            texts(g.class_ids@),
        ).contains(h) || exemplars(doc, texts(g.class_ids@)).contains(h),
{
    let ids = texts(g.class_ids@);
    let a = shown(doc, g, fold);
    let b = deferred(doc, g, fold);
    lemma_concat_contains(a, b, h);
    if fold == Fold::Folded && g.effort == Effort::Skim {
        lemma_remainder(doc, ids, h);
    }
}

proof fn lemma_concat_contains(a: Seq<int>, b: Seq<int>, x: int)
    ensures
        (a + b).contains(x) <==> a.contains(x) || b.contains(x),
{
    let c = a + b;
    if a.contains(x) {
        let k = choose|k: int| 0 <= k < a.len() && a[k] == x;
        assert(c[k] == x);
    }
    if b.contains(x) {
        let k = choose|k: int| 0 <= k < b.len() && b[k] == x;
        assert(c[a.len() + k] == x);
    }
    if c.contains(x) {
        let k = choose|k: int| 0 <= k < c.len() && c[k] == x;
        if k < a.len() {
            assert(a[k] == x);
        } else {
            assert(b[k - a.len()] == x);
        }
    }
}

proof fn lemma_others(s: Seq<int>, x: int, h: int)
    ensures
        others(s, x).contains(h) <==> s.contains(h) && h != x,
    decreases s.len(),
{
    if s.len() > 0 {
        let p = s.drop_last();
        lemma_others(p, x, h);
        assert(s =~= p + seq![s.last()]);
        lemma_concat_contains(p, seq![s.last()], h);
        assert(seq![s.last()].contains(h) <==> h == s.last()) by {
            assert(seq![s.last()][0] == s.last());
        }
        if s.last() != x {
            let o = others(p, x);
            assert(others(s, x) =~= o + seq![s.last()]);
            lemma_concat_contains(o, seq![s.last()], h);
        }
    }
}

proof fn lemma_remainder(doc: &PlanDocument, ids: Seq<Seq<char>>, h: int)
    ensures
        group_numbers(doc, ids).contains(h) ==> exemplars(doc, ids).contains(h) || remainder(
            doc,
            ids,
        ).contains(h),
        remainder(doc, ids).contains(h) ==> group_numbers(doc, ids).contains(h),
    decreases ids.len(),
{
    if ids.len() > 0 {
        let p = ids.drop_last();
        lemma_remainder(doc, p, h);
        let c = class_numbers(doc, ids.last());
        let x = exemplar_number(doc, ids.last());
        lemma_others(c, x, h);
        lemma_concat_contains(group_numbers(doc, p), c, h);
        lemma_concat_contains(remainder(doc, p), others(c, x), h);
        assert(exemplars(doc, ids) =~= exemplars(doc, p) + seq![x]);
        lemma_concat_contains(exemplars(doc, p), seq![x], h);
        assert(seq![x][0] == x);
    }
}

/// Whether every class lists its exemplar among its members, once.
pub open spec fn exemplars_are_members(doc: &PlanDocument, ids: Seq<Seq<char>>) -> bool {
    forall|k: int|
        0 <= k < ids.len() ==> class_numbers(doc, #[trigger] ids[k]).to_multiset().count(
            exemplar_number(doc, ids[k]),
        ) == 1
}

/// Where every class lists its exemplar once, the two halves of a split are the
/// hunks of the group rearranged: each as often as the group carries it.
pub proof fn law_split_rearranges_the_group(doc: &PlanDocument, g: Group, fold: Fold)
    requires
        exemplars_are_members(doc, texts(g.class_ids@)),
    ensures
        (shown(doc, g, fold) + deferred(doc, g, fold)).to_multiset() == group_numbers(
            doc,
            texts(g.class_ids@),
        ).to_multiset(),
{
    let ids = texts(g.class_ids@);
    let all = group_numbers(doc, ids);
    assert(all + Seq::<int>::empty() =~= all);
    assert(Seq::<int>::empty() + all =~= all);
    if fold == Fold::Folded && g.effort == Effort::Skim {
        lemma_rearranged(doc, ids);
        vstd::seq_lib::lemma_multiset_commutative(exemplars(doc, ids), remainder(doc, ids));
    }
}

proof fn lemma_rearranged(doc: &PlanDocument, ids: Seq<Seq<char>>)
    requires
        exemplars_are_members(doc, ids),
    ensures
        exemplars(doc, ids).to_multiset().add(remainder(doc, ids).to_multiset()) == group_numbers(
            doc,
            ids,
        ).to_multiset(),
    decreases ids.len(),
{
    let none = Seq::<int>::empty();
    none.to_multiset_ensures();
    if ids.len() == 0 {
        assert(exemplars(doc, ids) =~= none);
        vstd::seq_lib::lemma_multiset_commutative(none, none);
        assert(none + none =~= none);
    } else {
        let p = ids.drop_last();
        assert forall|k: int| 0 <= k < p.len() implies class_numbers(
            doc,
            #[trigger] p[k],
        ).to_multiset().count(exemplar_number(doc, p[k])) == 1 by {
            assert(p[k] == ids[k]);
        }
        lemma_rearranged(doc, p);
        let c = class_numbers(doc, ids.last());
        let x = exemplar_number(doc, ids.last());
        assert(class_numbers(doc, ids[ids.len() - 1]).to_multiset().count(x) == 1);
        let one = seq![x];
        assert(exemplars(doc, ids) =~= exemplars(doc, p) + one);
        vstd::seq_lib::lemma_multiset_commutative(exemplars(doc, p), one);
        vstd::seq_lib::lemma_multiset_commutative(remainder(doc, p), others(c, x));
        vstd::seq_lib::lemma_multiset_commutative(group_numbers(doc, p), c);
        assert(one =~= none.push(x));
        assert forall|y: int| #[trigger]
            one.to_multiset().count(y) + others(c, x).to_multiset().count(y)
                == c.to_multiset().count(y) by {
            lemma_others_count(c, x, y);
        }
        assert(exemplars(doc, ids).to_multiset().add(remainder(doc, ids).to_multiset())
            =~= group_numbers(doc, ids).to_multiset());
    }
}

proof fn lemma_others_count(s: Seq<int>, x: int, y: int)
    ensures
        others(s, x).to_multiset().count(y) == if y == x {
            0
        } else {
            s.to_multiset().count(y)
        },
    decreases s.len(),
{
    s.to_multiset_ensures();
    others(s, x).to_multiset_ensures();
    if s.len() > 0 {
        let p = s.drop_last();
        lemma_others_count(p, x, y);
        p.to_multiset_ensures();
        others(p, x).to_multiset_ensures();
        assert(s =~= p.push(s.last()));
    }
}

/// Whether an id names a class of a document, the last one where several have it.
pub open spec fn is_named(doc: &PlanDocument, id: Seq<char>, c: int) -> bool {
    &&& 0 <= c < doc.classes@.len()
    &&& doc.classes@[c].id@ == id
    &&& forall|d: int| c < d < doc.classes@.len() ==> (#[trigger] doc.classes@[d]).id@ != id
}

/// Whether a class has a hunk among its members.
pub open spec fn has_hunk(doc: &PlanDocument, c: int, h: int) -> bool {
    exists|k: int|
        0 <= k < doc.classes@[c].hunk_ids@.len() && hunk_number(
            (#[trigger] doc.classes@[c].hunk_ids@[k])@,
        ) == Some(h as nat)
}

/// Whether a group names a class with a hunk.
pub open spec fn group_has(doc: &PlanDocument, g: Group, h: int) -> bool {
    exists|k: int, c: int|
        0 <= k < g.class_ids@.len() && #[trigger] is_named(doc, g.class_ids@[k]@, c) && has_hunk(
            doc,
            c,
            h,
        )
}

/// Whether a group names a class whose exemplar is a hunk.
pub open spec fn group_shows(doc: &PlanDocument, g: Group, h: int) -> bool {
    exists|k: int, c: int|
        0 <= k < g.class_ids@.len() && #[trigger] is_named(doc, g.class_ids@[k]@, c)
            && hunk_number(doc.classes@[c].exemplar@) == Some(h as nat)
}

/// Whether a group names a class with a hunk that is not its exemplar.
pub open spec fn group_withholds(doc: &PlanDocument, g: Group, h: int) -> bool {
    exists|k: int, c: int|
        0 <= k < g.class_ids@.len() && #[trigger] is_named(doc, g.class_ids@[k]@, c) && has_hunk(
            doc,
            c,
            h,
        ) && hunk_number(doc.classes@[c].exemplar@) != Some(h as nat)
}

/// The class that an id names, and its hunks.
pub proof fn lemma_named(doc: &PlanDocument, id: Seq<char>, h: int)
    requires
        valid(doc),
        class_names(doc.classes@).contains(id),
        0 <= h,
    ensures
        ({
            let c = last_pos(class_names(doc.classes@), id)->0;
            &&& is_named(doc, id, c)
            &&& forall|d: int| #[trigger] is_named(doc, id, d) ==> d == c
            &&& class_numbers(doc, id).contains(h) <==> has_hunk(doc, c, h)
            &&& exemplar_number(doc, id) == h <==> hunk_number(doc.classes@[c].exemplar@) == Some(
                h as nat,
            )
        }),
{
    let names = class_names(doc.classes@);
    lemma_last_pos(names, id);
    lemma_last_is_last(names, id);
    let c = last_pos(names, id)->0;
    assert(names[c] == doc.classes@[c].id@);
    assert forall|d: int| c < d < doc.classes@.len() implies (#[trigger] doc.classes@[d]).id@
        != id by {
        assert(names[d] == doc.classes@[d].id@);
    }
    let entry = doc.classes@[c];
    assert(class_ok(doc, entry));
    let ids = texts(entry.hunk_ids@);
    let ns = class_numbers(doc, id);
    if ns.contains(h) {
        let k = choose|k: int| 0 <= k < ns.len() && ns[k] == h;
        assert(ids[k] == entry.hunk_ids@[k]@);
        assert(id_ok(doc, entry.hunk_ids@[k]@));
    }
    if has_hunk(doc, c, h) {
        let k = choose|k: int|
            0 <= k < entry.hunk_ids@.len() && hunk_number((#[trigger] entry.hunk_ids@[k])@) == Some(
                h as nat,
            );
        assert(ids[k] == entry.hunk_ids@[k]@);
        assert(ns[k] == h);
    }
}

/// Behind the last place of a name it does not stand again.
pub proof fn lemma_last_is_last(names: Seq<Seq<char>>, x: Seq<char>)
    ensures
        last_pos(names, x) matches Some(p) ==> forall|d: int|
            p < d < names.len() ==> #[trigger] names[d] != x,
    decreases names.len(),
{
    if names.len() > 0 && names.last() != x {
        lemma_last_is_last(names.drop_last(), x);
        lemma_last_pos(names.drop_last(), x);
        if let Some(p) = last_pos(names, x) {
            assert forall|d: int| p < d < names.len() implies #[trigger] names[d] != x by {
                if d < names.len() - 1 {
                    assert(names.drop_last()[d] == names[d]);
                }
            }
        }
    }
}

/// A hunk of a group is one of its classes'.
pub proof fn lemma_listed(doc: &PlanDocument, ids: Seq<Seq<char>>, h: int)
    ensures
        group_numbers(doc, ids).contains(h) <==> exists|k: int|
            0 <= k < ids.len() && class_numbers(doc, #[trigger] ids[k]).contains(h),
        remainder(doc, ids).contains(h) <==> exists|k: int|
            0 <= k < ids.len() && class_numbers(doc, #[trigger] ids[k]).contains(h)
                && exemplar_number(doc, ids[k]) != h,
    decreases ids.len(),
{
    if ids.len() > 0 {
        let p = ids.drop_last();
        lemma_listed(doc, p, h);
        let c = class_numbers(doc, ids.last());
        let x = exemplar_number(doc, ids.last());
        lemma_others(c, x, h);
        lemma_concat_contains(group_numbers(doc, p), c, h);
        lemma_concat_contains(remainder(doc, p), others(c, x), h);
        assert(forall|k: int| 0 <= k < p.len() ==> #[trigger] p[k] == ids[k]);
        assert(forall|k: int| 0 <= k < p.len() ==> #[trigger] ids[k] == p[k]);
        if c.contains(h) {
            assert(class_numbers(doc, ids[ids.len() - 1]).contains(h));
        }
    }
}

/// A focus group and an unfolded one are shown whole. Of a folded skim group one hunk a
/// class is shown, its exemplar, and the others are withheld. A folded noise group is
/// withheld whole.
pub proof fn law_a_group_is_shown_as_its_effort_says(
    index: &PlanIndex<'_>,
    group: &Group,
    fold: Fold,
    r: ReadingSplit,
    h: int,
)
    requires
        call_ensures(reading_split, (index, group, fold), r),
        valid(&index.document()),
        group_ok(&index.document(), *group),
        0 <= h,
    ensures
        numbers(r.shown@).contains(h) <==> if fold == Fold::Unfolded || group.effort
            == Effort::Focus {
            group_has(&index.document(), *group, h)
        } else {
            group.effort == Effort::Skim && group_shows(&index.document(), *group, h)
        },
        numbers(r.deferred@).contains(h) <==> fold == Fold::Folded && match group.effort {
            Effort::Focus => false,
            Effort::Skim => group_withholds(&index.document(), *group, h),
            Effort::Noise => group_has(&index.document(), *group, h),
        },
        r.deferral == Deferral::FoldedNoise <==> fold == Fold::Folded && group.effort
            == Effort::Noise,
        r.deferral == Deferral::SkimRemainder <==> fold == Fold::Folded && group.effort
            == Effort::Skim && r.deferred@.len() > 0,
{
    let doc = index.document();
    let ids = texts(group.class_ids@);
    assert(numbers(r.deferred@).len() == r.deferred@.len());
    lemma_listed(&doc, ids, h);
    assert forall|k: int| 0 <= k < ids.len() implies ({
        let c = last_pos(class_names(doc.classes@), #[trigger] ids[k])->0;
        &&& is_named(&doc, ids[k], c)
        &&& forall|d: int| #[trigger] is_named(&doc, ids[k], d) ==> d == c
        &&& class_numbers(&doc, ids[k]).contains(h) <==> has_hunk(&doc, c, h)
        &&& exemplar_number(&doc, ids[k]) == h <==> hunk_number(doc.classes@[c].exemplar@) == Some(
            h as nat,
        )
    }) by {
        assert(ids[k] == group.class_ids@[k]@);
        lemma_named(&doc, ids[k], h);
    }
    let all = group_numbers(&doc, ids);
    let rest = remainder(&doc, ids);
    let ex = exemplars(&doc, ids);
    if all.contains(h) {
        let k = choose|k: int|
            0 <= k < ids.len() && class_numbers(&doc, #[trigger] ids[k]).contains(h);
        let c = last_pos(class_names(doc.classes@), ids[k])->0;
        assert(is_named(&doc, group.class_ids@[k]@, c));
    }
    if rest.contains(h) {
        let k = choose|k: int|
            0 <= k < ids.len() && class_numbers(&doc, #[trigger] ids[k]).contains(h)
                && exemplar_number(&doc, ids[k]) != h;
        let c = last_pos(class_names(doc.classes@), ids[k])->0;
        assert(is_named(&doc, group.class_ids@[k]@, c));
    }
    if ex.contains(h) {
        let k = choose|k: int| 0 <= k < ex.len() && ex[k] == h;
        let c = last_pos(class_names(doc.classes@), ids[k])->0;
        assert(is_named(&doc, group.class_ids@[k]@, c));
    }
    if group_has(&doc, *group, h) {
        let (k, c) = choose|k: int, c: int|
            0 <= k < group.class_ids@.len() && #[trigger] is_named(&doc, group.class_ids@[k]@, c)
                && has_hunk(&doc, c, h);
        assert(is_named(&doc, ids[k], c));
    }
    if group_withholds(&doc, *group, h) {
        let (k, c) = choose|k: int, c: int|
            0 <= k < group.class_ids@.len() && #[trigger] is_named(&doc, group.class_ids@[k]@, c)
                && has_hunk(&doc, c, h) && hunk_number(doc.classes@[c].exemplar@) != Some(h as nat);
        assert(is_named(&doc, ids[k], c));
    }
    if group_shows(&doc, *group, h) {
        let (k, c) = choose|k: int, c: int|
            0 <= k < group.class_ids@.len() && #[trigger] is_named(&doc, group.class_ids@[k]@, c)
                && hunk_number(doc.classes@[c].exemplar@) == Some(h as nat);
        assert(is_named(&doc, ids[k], c));
        assert(ex[k] == h);
    }
}

} // verus!
