//! The stage end to end: what it asks, what an answer comes to, and that a document
//! of the core can always be grouped and ordered.
use vstd::prelude::*;

use super::assemble::info_names;
use super::coverage::{bare, law_every_class_is_in_one_group, plan_items};
use super::fetch::{fetch_response, is_response, key_text, GroupingOptions, Progress};
use super::infos::{class_infos, consistent, describes, resolves};
use super::parse::{RawGroup, RawGroups};
use super::payload::{build_prompt, by_weight, prompt_text};
use super::{
    all_hunks, carried, groupable, ids_of, is_grouped, lemma_group_of_carried, lemma_same_items,
    lemma_sum_bounded, mentions, omitted, routed, route, run, ClassInfo,
};
use crate::artefact::graph::ClassGraph;
use crate::document::{belongs, is_class_entry, is_document, is_file_entry, is_hunk_entry, SourceInfo};
use crate::invariants::InvariantReport;
use crate::lang::FileSymbols;
use crate::llm::LlmBackend;
use crate::model::DiffView;
use crate::ordering::{can_order, Tables};
use crate::ports::{ArtefactStore, GroupingCache};
use crate::schema::{
    class_names, file_names, group_views, hunk_names, last_pos, lemma_last_pos, ClassEntry, Effort,
    PlanDocument,
};
use crate::seqs::texts;
use crate::shape::{is_partition, Partition};
use crate::text::law_decimal_round_trip;
use crate::EngineError;

verus! {

/// The hunks of the first `k` classes.
pub open spec fn class_total(classes: Seq<ClassEntry>, k: nat) -> nat
    decreases k,
{
    if k == 0 {
        0
    } else {
        class_total(classes, (k - 1) as nat) + classes[k - 1].hunk_ids@.len()
    }
}

/// Whether a document can be grouped: what its classes name is there, no two share an
/// id, none is empty, and the hunks can be counted.
pub open spec fn ready(doc: &PlanDocument) -> bool {
    &&& consistent(doc)
    &&& class_names(doc.classes@).no_duplicates()
    &&& forall|c: int|
        0 <= c < doc.classes@.len() ==> (#[trigger] doc.classes@[c]).hunk_ids@.len() >= 1
    &&& class_total(doc.classes@, doc.classes@.len()) <= usize::MAX
}

// ---------------------------------------------------------------------------
// Documents of the core are ready

/// The members of the first `k` classes.
spec fn flat(classes: Seq<Vec<usize>>, k: nat) -> Seq<usize>
    decreases k,
{
    if k == 0 {
        Seq::empty()
    } else {
        flat(classes, (k - 1) as nat) + classes[k - 1]@
    }
}

proof fn lemma_flat(classes: Seq<Vec<usize>>, class_of: Seq<usize>, k: nat)
    requires
        is_partition(classes, class_of),
        k <= classes.len(),
    ensures
        flat(classes, k).no_duplicates(),
        forall|i: int|
            0 <= i < flat(classes, k).len() ==> (#[trigger] flat(classes, k)[i]) < class_of.len()
                && class_of[flat(classes, k)[i] as int] < k,
    decreases k,
{
    if k > 0 {
        lemma_flat(classes, class_of, (k - 1) as nat);
        let a = flat(classes, (k - 1) as nat);
        let b = classes[k - 1]@;
        let all = flat(classes, k);
        assert forall|i: int| 0 <= i < all.len() implies (#[trigger] all[i]) < class_of.len()
            && class_of[all[i] as int] < k by {
            if i < a.len() {
                assert(all[i] == a[i]);
            } else {
                assert(all[i] == classes[k - 1]@[i - a.len()]);
            }
        }
        assert forall|i: int, j: int| 0 <= i < j < all.len() implies all[i] != all[j] by {
            if j < a.len() {
                assert(all[i] == a[i] && all[j] == a[j]);
            } else {
                assert(all[j] == classes[k - 1]@[j - a.len()]);
                if i < a.len() {
                    assert(all[i] == a[i]);
                } else {
                    assert(all[i] == classes[k - 1]@[i - a.len()]);
                    assert(classes[k - 1]@.len() > 0);
                }
            }
        }
    }
}

/// A partition lists no more members than there are.
proof fn lemma_flat_len(classes: Seq<Vec<usize>>, class_of: Seq<usize>)
    requires
        is_partition(classes, class_of),
    ensures
        flat(classes, classes.len()).len() <= class_of.len(),
{
    lemma_flat(classes, class_of, classes.len());
    let all = flat(classes, classes.len());
    let ints = all.map_values(|x: usize| x as int);
    assert(ints.no_duplicates());
    ints.unique_seq_to_set();
    let n = class_of.len() as int;
    vstd::set_lib::lemma_int_range(0, n);
    assert(ints.to_set().subset_of(vstd::set_lib::set_int_range(0, n))) by {
        assert forall|x: int| ints.to_set().contains(x) implies vstd::set_lib::set_int_range(
            0,
            n,
        ).contains(x) by {
            let i = choose|i: int| 0 <= i < ints.len() && ints[i] == x;
            assert(all[i] == x);
        }
    }
    vstd::set_lib::lemma_len_subset(ints.to_set(), vstd::set_lib::set_int_range(0, n));
}

proof fn lemma_totals(
    d: &PlanDocument,
    part: &Partition,
    graph: &ClassGraph,
    k: nat,
)
    requires
        k <= d.classes@.len(),
        d.classes@.len() == part.classes@.len(),
        forall|c: int|
            0 <= c < d.classes@.len() ==> is_class_entry(#[trigger] d.classes@[c], c, part, graph),
    ensures
        class_total(d.classes@, k) == flat(part.classes@, k).len(),
    decreases k,
{
    if k > 0 {
        lemma_totals(d, part, graph, (k - 1) as nat);
        assert(is_class_entry(d.classes@[k - 1], k - 1, part, graph));
        assert(texts(d.classes@[k - 1].hunk_ids@).len() == part.classes@[k - 1]@.len());
    }
}

/// A number is told from its id.
proof fn lemma_numbered(letter: char, a: int, b: int)
    requires
        0 <= a,
        0 <= b,
        crate::document::numbered(letter, a) == crate::document::numbered(letter, b),
    ensures
        a == b,
{
    let x = crate::document::numbered(letter, a);
    let y = crate::document::numbered(letter, b);
    assert(x.skip(1) =~= crate::text::decimal(a as nat));
    assert(y.skip(1) =~= crate::text::decimal(b as nat));
    let max = if a < b {
        b as nat
    } else {
        a as nat
    };
    law_decimal_round_trip(a as nat, max);
    law_decimal_round_trip(b as nat, max);
}

/// A document that the core makes can be grouped.
pub proof fn law_a_document_can_be_grouped(
    d: &PlanDocument,
    view: &DiffView,
    part: &Partition,
    graph: &ClassGraph,
    source: &SourceInfo,
    report: &InvariantReport,
    version: Seq<char>,
)
    requires
        belongs(view, part, graph),
        is_document(*d, view, part, graph, source, report, version),
    ensures
        ready(d),
{
    let hunks = hunk_names(d.hunks@);
    let files = file_names(d.files@);
    assert forall|n: int| 0 <= n < d.hunks@.len() implies #[trigger] resolves(
        d,
        crate::document::numbered('h', n),
    ) by {
        assert(is_hunk_entry(d.hunks@[n], n, view, part));
        assert(hunks[n] == crate::document::numbered('h', n));
        lemma_last_pos(hunks, crate::document::numbered('h', n));
        let i = last_pos(hunks, crate::document::numbered('h', n))->0;
        assert(is_hunk_entry(d.hunks@[i], i, view, part));
        let f = view.hunks@[i].file as int;
        assert(is_file_entry(d.files@[f], view.files@[f]));
        assert(files[f] == d.hunks@[i].file@);
        lemma_last_pos(files, d.hunks@[i].file@);
    }
    assert forall|c: int| 0 <= c < d.classes@.len() implies super::infos::class_resolves(
        d,
        #[trigger] d.classes@[c],
    ) && d.classes@[c].hunk_ids@.len() >= 1 by {
        let e = d.classes@[c];
        let members = part.classes@[c]@;
        assert(is_class_entry(e, c, part, graph));
        assert(part.classes@[c]@.len() > 0);
        assert(part.classes@[c]@[0] < part.class_of@.len());
        assert(texts(e.hunk_ids@).len() == members.len());
        assert(resolves(d, crate::document::numbered('h', members[0] as int)));
        assert forall|k: int| 0 <= k < e.hunk_ids@.len() implies resolves(
            d,
            (#[trigger] e.hunk_ids@[k])@,
        ) by {
            assert(texts(e.hunk_ids@)[k] == crate::document::ids_of('h', members)[k]);
            assert(part.classes@[c]@[k] < part.class_of@.len());
            assert(resolves(d, crate::document::numbered('h', members[k] as int)));
        }
    }
    let names = class_names(d.classes@);
    assert forall|i: int, j: int| 0 <= i < j < names.len() implies names[i] != names[j] by {
        assert(is_class_entry(d.classes@[i], i, part, graph));
        assert(is_class_entry(d.classes@[j], j, part, graph));
        if names[i] == names[j] {
            lemma_numbered('C', i, j);
        }
    }
    lemma_totals(d, part, graph, d.classes@.len());
    lemma_flat_len(part.classes@, part.class_of@);
    assert(part.class_of@.len() == part.class_of.len());
}

// ---------------------------------------------------------------------------
// What is known of the classes of a ready document

proof fn lemma_info_totals(doc: &PlanDocument, infos: Seq<ClassInfo>, k: nat)
    requires
        k <= infos.len(),
        infos.len() == doc.classes@.len(),
        forall|c: int|
            0 <= c < infos.len() ==> describes(#[trigger] infos[c], doc, doc.classes@[c]),
    ensures
        all_hunks(infos.take(k as int)) == class_total(doc.classes@, k),
    decreases k,
{
    if k > 0 {
        lemma_info_totals(doc, infos, (k - 1) as nat);
        assert(infos.take(k as int).drop_last() =~= infos.take(k - 1));
        assert(describes(infos[k - 1], doc, doc.classes@[k - 1]));
    }
}

/// What is known of the classes of a ready document can be grouped.
proof fn lemma_groupable(doc: &PlanDocument, infos: Seq<ClassInfo>)
    requires
        ready(doc),
        infos.len() == doc.classes@.len(),
        forall|c: int|
            0 <= c < infos.len() ==> describes(#[trigger] infos[c], doc, doc.classes@[c]),
    ensures
        groupable(infos),
        info_names(infos) == class_names(doc.classes@),
{
    assert forall|i: int| 0 <= i < infos.len() implies (#[trigger] infos[i]).n_hunks >= 1
        && infos[i].id@ == doc.classes@[i].id@ by {
        assert(describes(infos[i], doc, doc.classes@[i]));
        assert(doc.classes@[i].hunk_ids@.len() >= 1);
    }
    assert(info_names(infos) =~= class_names(doc.classes@));
    lemma_info_totals(doc, infos, infos.len());
    assert(infos.take(infos.len() as int) =~= infos);
}

/// The hunks of known classes, counted in the document and in what is known of it.
proof fn lemma_weights(doc: &PlanDocument, t: Tables, infos: Seq<ClassInfo>, ids: Seq<Seq<char>>)
    requires
        t.classes == doc.classes@,
        infos.len() == doc.classes@.len(),
        info_names(infos) == class_names(doc.classes@),
        forall|c: int|
            0 <= c < infos.len() ==> describes(#[trigger] infos[c], doc, doc.classes@[c]),
        forall|i: int| 0 <= i < ids.len() ==> class_names(doc.classes@).contains(#[trigger] ids[i]),
    ensures
        t.weight(ids) == super::assemble::hunks_in(infos, ids),
    decreases ids.len(),
{
    if ids.len() > 0 {
        let p = ids.drop_last();
        assert forall|i: int| 0 <= i < p.len() implies class_names(doc.classes@).contains(
            #[trigger] p[i],
        ) by {
            assert(p[i] == ids[i]);
        }
        lemma_weights(doc, t, infos, p);
        assert(class_names(doc.classes@).contains(ids[ids.len() - 1]));
        lemma_last_pos(class_names(doc.classes@), ids.last());
        let i = last_pos(class_names(doc.classes@), ids.last())->0;
        assert(describes(infos[i], doc, doc.classes@[i]));
    }
}

/// A grouped document can be ordered.
pub proof fn law_a_grouped_document_can_be_ordered(
    doc: PlanDocument,
    infos: Seq<ClassInfo>,
    raw: Seq<RawGroup>,
    grouped: PlanDocument,
    view: DiffView,
    symbols: Seq<FileSymbols>,
)
    requires
        ready(&doc),
        infos.len() == doc.classes@.len(),
        forall|c: int|
            0 <= c < infos.len() ==> describes(#[trigger] infos[c], &doc, doc.classes@[c]),
        is_grouped(doc, infos, raw, grouped),
        view.wf(),
        doc.hunks@.len() == view.hunks@.len(),
        symbols.len() == view.files@.len(),
    ensures
        can_order(grouped, view, symbols),
{
    lemma_groupable(&doc, infos);
    let names = class_names(doc.classes@);
    let items = plan_items(infos, raw);
    let groups = grouped.groups->0@;
    let t = Tables { classes: grouped.classes@, hunks: grouped.hunks@, view, symbols };
    law_every_class_is_in_one_group(infos, raw);
    let all = carried(bare(items));
    lemma_same_items(names, all);
    assert(group_views(groups).len() == items.len());
    assert forall|g: int| 0 <= g < groups.len() && (#[trigger] groups[g]).effort
        != Effort::Noise implies t.resolves(groups[g]) && t.weight(texts(groups[g].class_ids@))
        <= usize::MAX by {
        let ids = texts(groups[g].class_ids@);
        assert(group_views(groups)[g] == groups[g]@);
        assert(ids == items[g].0.class_ids);
        assert(bare(items)[g].class_ids == ids);
        lemma_group_of_carried(bare(items), g);
        assert forall|j: int| 0 <= j < ids.len() implies names.contains(#[trigger] ids[j]) by {
            assert(all.contains(bare(items)[g].class_ids[j]));
        }
        assert forall|j: int| 0 <= j < groups[g].class_ids@.len() implies t.class_resolves(
            (#[trigger] groups[g].class_ids@[j])@,
        ) by {
            let id = ids[j];
            assert(id == groups[g].class_ids@[j]@);
            lemma_last_pos(names, id);
            let c = last_pos(names, id)->0;
            assert(super::infos::class_resolves(&doc, doc.classes@[c]));
            assert forall|k: int| 0 <= k < t.class(id).hunk_ids@.len() implies t.hunk_resolves(
                (#[trigger] t.class(id).hunk_ids@[k])@,
            ) by {
                assert(resolves(&doc, doc.classes@[c].hunk_ids@[k]@));
                lemma_last_pos(hunk_names(doc.hunks@), doc.classes@[c].hunk_ids@[k]@);
            }
        }
        lemma_weights(&doc, t, infos, ids);
        lemma_sum_bounded(infos, ids);
    }
    if groups.len() == 0 {
        assert(bare(items).len() == 0);
        assert(all =~= Seq::<Seq<char>>::empty());
        assert(names.len() == 0) by {
            if names.len() > 0 {
                assert(names.contains(names[0]));
                assert(all.contains(names[0]));
            }
        }
        assert(infos.len() == 0);
        assert(routed(infos, false).len() == 0);
        assert(ids_of(routed(infos, false)).len() == 0);
        assert(omitted(ids_of(routed(infos, false)), mentions(raw)).len() == 0);
    }
}

// ---------------------------------------------------------------------------
// The stage

/// Whether infos are what is known of the classes of a document.
pub open spec fn are_infos(doc: &PlanDocument, infos: Seq<ClassInfo>) -> bool {
    &&& infos.len() == doc.classes@.len()
    &&& forall|c: int|
        0 <= c < infos.len() ==> describes(#[trigger] infos[c], doc, doc.classes@[c])
}

/// Whether reading an answer may give this.
pub open spec fn parse_answer<P: Fn(&str) -> Result<RawGroups, EngineError>>(
    parse: P,
    text: Seq<char>,
    answer: Result<RawGroups, EngineError>,
) -> bool {
    exists|t: &str| t@ == text && #[trigger] call_ensures(parse, (t,), answer)
}

/// Whether a result is what the model's text comes to.
pub open spec fn is_read<P: Fn(&str) -> Result<RawGroups, EngineError>>(
    doc: PlanDocument,
    infos: Seq<ClassInfo>,
    parse: P,
    text: Seq<char>,
    r: Result<PlanDocument, EngineError>,
) -> bool {
    exists|answer: Result<RawGroups, EngineError>|
        {
            &&& #[trigger] parse_answer(parse, text, answer)
            &&& match answer {
                Err(e) => r == Err::<PlanDocument, EngineError>(e),
                Ok(raw) => r matches Ok(grouped) && is_grouped(doc, infos, raw.groups@, grouped),
            }
        }
}

/// Whether a result is what asking the model comes to, its copy of the document being
/// at a path.
pub open spec fn is_prompted<
    B: LlmBackend,
    C: GroupingCache,
    P: Fn(&str) -> Result<RawGroups, EngineError>,
>(
    doc: PlanDocument,
    infos: Seq<ClassInfo>,
    template: Seq<char>,
    path: Seq<char>,
    options: GroupingOptions<'_, B, C>,
    fingerprint: Seq<char>,
    parse: P,
    r: Result<PlanDocument, EngineError>,
) -> bool {
    let offered = routed(infos, false);
    exists|prompt: &str, identity: &str, response: Result<String, EngineError>|
        {
            &&& prompt@ == prompt_text(
                template,
                ids_of(by_weight(offered)),
                options.fetch@,
                path,
                doc.source.base@,
                doc.source.head@,
            )
            &&& call_ensures(B::identity, (options.backend,), identity)
            &&& #[trigger] is_response(
                options.backend,
                options.cache,
                prompt,
                key_text(offered, identity@, fingerprint),
                response,
            )
            &&& match response {
                Err(e) => r == Err::<PlanDocument, EngineError>(e),
                Ok(text) => is_read(doc, infos, parse, text@, r),
            }
        }
}

/// Whether a result is what asking the model comes to: it is given the document to
/// read, and the prompt.
pub open spec fn is_asked<
    B: LlmBackend,
    C: GroupingCache,
    A: ArtefactStore,
    P: Fn(&str) -> Result<RawGroups, EngineError>,
>(
    doc: PlanDocument,
    infos: Seq<ClassInfo>,
    template: Seq<char>,
    artefacts: &A,
    options: GroupingOptions<'_, B, C>,
    fingerprint: Seq<char>,
    parse: P,
    r: Result<PlanDocument, EngineError>,
) -> bool {
    exists|path: Result<String, EngineError>|
        {
            &&& #[trigger] call_ensures(A::make_readable, (artefacts, &doc), path)
            &&& match path {
                Err(e) => r == Err::<PlanDocument, EngineError>(e),
                Ok(path) => is_prompted(
                    doc,
                    infos,
                    template,
                    path@,
                    options,
                    fingerprint,
                    parse,
                    r,
                ),
            }
        }
}

/// Whether a result is what the stage makes of a document. Where every class is
/// generated, nobody is asked.
pub open spec fn is_staged<
    B: LlmBackend,
    C: GroupingCache,
    A: ArtefactStore,
    P: Fn(&str) -> Result<RawGroups, EngineError>,
>(
    doc: PlanDocument,
    template: Seq<char>,
    artefacts: &A,
    options: GroupingOptions<'_, B, C>,
    fingerprint: Seq<char>,
    parse: P,
    r: Result<PlanDocument, EngineError>,
) -> bool {
    exists|infos: Seq<ClassInfo>|
        {
            &&& #[trigger] are_infos(&doc, infos)
            &&& if routed(infos, false).len() == 0 {
                r matches Ok(grouped) && is_grouped(doc, infos, Seq::empty(), grouped)
            } else {
                is_asked(doc, infos, template, artefacts, options, fingerprint, parse, r)
            }
        }
}

/// Group a document: offer its classes to the model, or take the answer on file, and
/// audit what comes back. A grouped document can be ordered.
pub fn group_document<
    B: LlmBackend,
    C: GroupingCache,
    A: ArtefactStore,
    P: Fn(&str) -> Result<RawGroups, EngineError>,
    F: Fn(Progress),
>(
    doc: PlanDocument,
    template: &str,
    artefacts: &A,
    options: &GroupingOptions<'_, B, C>,
    fingerprint: &str,
    parse: &P,
    progress: &F,
) -> (r: Result<PlanDocument, EngineError>)
    requires
        ready(&doc),
        forall|t: &str| #[trigger] call_requires(*parse, (t,)),
        forall|x: Progress| #[trigger] call_requires(*progress, (x,)),
    ensures
        is_staged(doc, template@, artefacts, *options, fingerprint@, *parse, r),
        r matches Ok(grouped) ==> grouped.groups is Some && forall|
            view: DiffView,
            symbols: Seq<FileSymbols>,
        |
            view.wf() && doc.hunks@.len() == view.hunks@.len() && symbols.len()
                == view.files@.len() ==> #[trigger] can_order(grouped, view, symbols),
{
    let infos = class_infos(&doc);
    assert(are_infos(&doc, infos@));
    proof {
        lemma_groupable(&doc, infos@);
    }
    let offered = route(&infos, false);
    if offered.len() == 0 {
        let raw = RawGroups { groups: Vec::new() };
        let ghost said = raw.groups@;
        assert(said =~= Seq::<RawGroup>::empty());
        let grouped = run(doc, &infos, raw);
        proof {
            lemma_can_order(doc, infos@, said, grouped);
        }
        return Ok(grouped);
    }
    let put = artefacts.make_readable(&doc);
    assert(call_ensures(A::make_readable, (artefacts, &doc), put));
    let path = match put {
        Ok(path) => path,
        Err(e) => {
            assert(is_asked(doc, infos@, template@, artefacts, *options, fingerprint@, *parse, Err(e)));
            return Err(e);
        },
    };
    let r = ask(&doc, &infos, template, &path, options, fingerprint, parse, progress);
    match r {
        Ok(raw) => {
            let ghost said = raw.groups@;
            let grouped = run(doc, &infos, raw);
            proof {
                let done = Ok::<PlanDocument, EngineError>(grouped);
                assert(is_prompted(
                    doc,
                    infos@,
                    template@,
                    path@,
                    *options,
                    fingerprint@,
                    *parse,
                    done,
                ));
                assert(is_asked(
                    doc,
                    infos@,
                    template@,
                    artefacts,
                    *options,
                    fingerprint@,
                    *parse,
                    done,
                ));
                lemma_can_order(doc, infos@, said, grouped);
            }
            Ok(grouped)
        },
        Err(e) => {
            assert(is_prompted(
                doc,
                infos@,
                template@,
                path@,
                *options,
                fingerprint@,
                *parse,
                Err(e),
            ));
            assert(is_asked(
                doc,
                infos@,
                template@,
                artefacts,
                *options,
                fingerprint@,
                *parse,
                Err(e),
            ));
            Err(e)
        },
    }
}

/// The groups that the model states.
fn ask<
    B: LlmBackend,
    C: GroupingCache,
    P: Fn(&str) -> Result<RawGroups, EngineError>,
    F: Fn(Progress),
>(
    doc: &PlanDocument,
    infos: &Vec<ClassInfo>,
    template: &str,
    path: &str,
    options: &GroupingOptions<'_, B, C>,
    fingerprint: &str,
    parse: &P,
    progress: &F,
) -> (r: Result<RawGroups, EngineError>)
    requires
        forall|t: &str| #[trigger] call_requires(*parse, (t,)),
        forall|x: Progress| #[trigger] call_requires(*progress, (x,)),
    ensures
        match r {
            Ok(raw) => forall|grouped: PlanDocument| #[trigger]
                is_grouped(*doc, infos@, raw.groups@, grouped) ==> is_prompted(
                    *doc,
                    infos@,
                    template@,
                    path@,
                    *options,
                    fingerprint@,
                    *parse,
                    Ok(grouped),
                ),
            Err(e) => is_prompted(
                *doc,
                infos@,
                template@,
                path@,
                *options,
                fingerprint@,
                *parse,
                Err(e),
            ),
        },
{
    let offered = route(infos, false);
    let prompt = build_prompt(
        template,
        offered.as_slice(),
        options.fetch,
        path,
        doc.source.base.as_str(),
        doc.source.head.as_str(),
    );
    let asked: &str = prompt.as_str();
    let response = fetch_response(asked, offered.as_slice(), options, fingerprint, progress);
    let text = match response {
        Ok(text) => text,
        Err(e) => {
            return Err(e);
        },
    };
    let t: &str = text.as_str();
    let answer = parse(t);
    assert(parse_answer(*parse, text@, answer));
    let ghost said = answer;
    proof {
        match said {
            Ok(raw) => {
                assert forall|grouped: PlanDocument| #[trigger]
                    is_grouped(*doc, infos@, raw.groups@, grouped) implies is_prompted(
                    *doc,
                    infos@,
                    template@,
                    path@,
                    *options,
                    fingerprint@,
                    *parse,
                    Ok(grouped),
                ) by {
                    assert(is_read(*doc, infos@, *parse, text@, Ok(grouped)));
                }
            },
            Err(e) => {
                assert(is_read(*doc, infos@, *parse, text@, Err(e)));
            },
        }
    }
    answer
}

/// A grouped document can be ordered, over any view of its hunks.
proof fn lemma_can_order(
    doc: PlanDocument,
    infos: Seq<ClassInfo>,
    raw: Seq<RawGroup>,
    grouped: PlanDocument,
)
    requires
        ready(&doc),
        are_infos(&doc, infos),
        is_grouped(doc, infos, raw, grouped),
    ensures
        forall|view: DiffView, symbols: Seq<FileSymbols>|
            view.wf() && doc.hunks@.len() == view.hunks@.len() && symbols.len()
                == view.files@.len() ==> #[trigger] can_order(grouped, view, symbols),
{
    assert forall|view: DiffView, symbols: Seq<FileSymbols>|
        view.wf() && doc.hunks@.len() == view.hunks@.len() && symbols.len()
            == view.files@.len() implies #[trigger] can_order(grouped, view, symbols) by {
        law_a_grouped_document_can_be_ordered(doc, infos, raw, grouped, view, symbols);
    }
}

} // verus!
