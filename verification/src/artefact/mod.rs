//! What the model is given, and how it asks for more.
//!
//! The pre-group document is written to a file and the model fetches what it
//! needs. Its job is to merge class ids, label and rate them, never touching hunks.
//! This module answers its questions from the document; [`crate::agent`] renders
//! them as text.
use vstd::prelude::*;

use crate::plan::ids::{hunk_number, HunkId};
use crate::plan::{
    class_generated, class_is_generated, file_place, first_file, first_file_place,
};
use crate::schema::{ClassEntry, Disposition, FileEntry, HunkEntry, PlanDocument};
use crate::seqs::{lemma_push_contains, texts};
use crate::text::{contains_text, decimal, push_decimal, push_str, str_eq};

pub mod graph;
pub mod sites;
pub mod symbols;

verus! {

/// One class, resolved: everything a caller needs to describe or drill into it.
pub struct ClassView<'d> {
    pub class: &'d ClassEntry,
    /// Member hunks, in class order.
    pub members: Vec<&'d HunkEntry>,
    /// The member a reader reads to verify the whole class.
    pub exemplar: &'d HunkEntry,
    /// Distinct paths the class touches, in first-seen order.
    pub files: Vec<String>,
    /// Disposition of the exemplar's file.
    pub kind: Disposition,
}

/// The hunk that an id names, if there is one.
pub open spec fn hunk_named(doc: &PlanDocument, id: Seq<char>) -> Option<HunkEntry> {
    match hunk_number(id) {
        Some(n) => if n < doc.hunks@.len() {
            Some(doc.hunks@[n as int])
        } else {
            None
        },
        None => None,
    }
}

/// The hunks that the first `k` ids name; an id that names none is passed over.
pub open spec fn hunks_named(doc: &PlanDocument, ids: Seq<String>, k: nat) -> Seq<HunkEntry>
    decreases k,
{
    if k == 0 {
        Seq::empty()
    } else {
        match hunk_named(doc, ids[k - 1]@) {
            Some(h) => hunks_named(doc, ids, (k - 1) as nat).push(h),
            None => hunks_named(doc, ids, (k - 1) as nat),
        }
    }
}

/// The member hunks of a class.
pub open spec fn members_of(doc: &PlanDocument, c: ClassEntry) -> Seq<HunkEntry> {
    hunks_named(doc, c.hunk_ids@, c.hunk_ids@.len())
}

/// The distinct paths of the first `k` hunks, in first-seen order.
pub open spec fn paths_of(hunks: Seq<HunkEntry>, k: nat) -> Seq<Seq<char>>
    decreases k,
{
    if k == 0 {
        Seq::empty()
    } else {
        let before = paths_of(hunks, (k - 1) as nat);
        if before.contains(hunks[k - 1].file@) {
            before
        } else {
            before.push(hunks[k - 1].file@)
        }
    }
}

/// What borrowed hunks are.
pub open spec fn entries<'d>(v: Seq<&'d HunkEntry>) -> Seq<HunkEntry> {
    v.map_values(|h: &'d HunkEntry| *h)
}

/// Whether a class can be shown: its exemplar and the exemplar's file are in the
/// document.
pub open spec fn shown(doc: &PlanDocument, c: ClassEntry) -> bool {
    hunk_named(doc, c.exemplar@) matches Some(h) && first_file(doc, h.file@) is Some
}

/// Whether a view is the one of a class.
pub open spec fn is_view(v: ClassView, doc: &PlanDocument, c: ClassEntry) -> bool {
    &&& *v.class == c
    &&& entries(v.members@) == members_of(doc, c)
    &&& hunk_named(doc, c.exemplar@) == Some(*v.exemplar)
    &&& texts(v.files@) == paths_of(members_of(doc, c), members_of(doc, c).len())
    &&& first_file(doc, v.exemplar.file@) matches Some(f) && v.kind == f.disposition
}

/// The classes among the first `k` that can be shown and are kept.
pub open spec fn kept_classes(
    doc: &PlanDocument,
    keep: spec_fn(ClassEntry) -> bool,
    k: nat,
) -> Seq<ClassEntry>
    decreases k,
{
    if k == 0 {
        Seq::empty()
    } else if shown(doc, doc.classes@[k - 1]) && keep(doc.classes@[k - 1]) {
        kept_classes(doc, keep, (k - 1) as nat).push(doc.classes@[k - 1])
    } else {
        kept_classes(doc, keep, (k - 1) as nat)
    }
}

/// Whether views are those of the kept classes, in the order of the document.
pub open spec fn are_views(
    vs: Seq<ClassView>,
    doc: &PlanDocument,
    keep: spec_fn(ClassEntry) -> bool,
) -> bool {
    let cs = kept_classes(doc, keep, doc.classes@.len());
    &&& vs.len() == cs.len()
    &&& forall|i: int| 0 <= i < vs.len() ==> is_view(#[trigger] vs[i], doc, cs[i])
}

impl<'d> ClassView<'d> {
    /// Where to go and look: the path and the line of the exemplar.
    pub open spec fn place(&self) -> Seq<char> {
        self.exemplar.file@ + ":"@ + decimal(
            if self.exemplar.new_start >= 1 {
                self.exemplar.new_start as nat
            } else {
                1
            },
        )
    }

    /// `path:line` for the exemplar: where to go and look.
    pub fn exemplar_at(&self) -> (r: String)
        ensures
            r@ == self.place(),
    {
        let mut out = self.exemplar.file.clone();
        push_str(&mut out, ":");
        let line: u32 = if self.exemplar.new_start >= 1 {
            self.exemplar.new_start
        } else {
            1
        };
        push_decimal(&mut out, line as u64);
        out
    }
}

fn find_hunk_named<'d>(doc: &'d PlanDocument, id: &str) -> (r: Option<&'d HunkEntry>)
    ensures
        match r {
            Some(h) => hunk_named(doc, id@) == Some(*h),
            None => hunk_named(doc, id@) is None,
        },
{
    match HunkId::parse(id) {
        Ok(h) => if h.index() < doc.hunks.len() {
            Some(&doc.hunks[h.index()])
        } else {
            None
        },
        Err(_) => None,
    }
}

fn hunks_of<'d>(doc: &'d PlanDocument, ids: &Vec<String>) -> (r: Vec<&'d HunkEntry>)
    ensures
        entries(r@) == hunks_named(doc, ids@, ids@.len()),
{
    let mut out: Vec<&'d HunkEntry> = Vec::new();
    assert(entries(out@) =~= hunks_named(doc, ids@, 0));
    for i in 0..ids.len()
        invariant
            entries(out@) == hunks_named(doc, ids@, i as nat),
    {
        let ghost had = entries(out@);
        if let Some(h) = find_hunk_named(doc, &ids[i]) {
            out.push(h);
            assert(entries(out@) =~= had.push(*h));
        }
    }
    out
}

fn view<'d>(doc: &'d PlanDocument, class: &'d ClassEntry) -> (r: Option<ClassView<'d>>)
    ensures
        match r {
            Some(v) => shown(doc, *class) && is_view(v, doc, *class),
            None => !shown(doc, *class),
        },
{
    let members = hunks_of(doc, &class.hunk_ids);
    let exemplar = match find_hunk_named(doc, &class.exemplar) {
        Some(h) => h,
        None => {
            return None;
        },
    };
    let ghost all = members_of(doc, *class);
    let mut files: Vec<String> = Vec::new();
    assert(texts(files@) =~= paths_of(all, 0));
    for i in 0..members.len()
        invariant
            all == entries(members@),
            texts(files@) == paths_of(all, i as nat),
    {
        assert(all[i as int] == *members@[i as int]);
        let ghost had = texts(files@);
        if !contains_text(&files, &members[i].file) {
            files.push(members[i].file.clone());
            assert(texts(files@) =~= had.push(members@[i as int].file@));
        }
    }
    match first_file_place(doc, &exemplar.file) {
        Some(f) => Some(
            ClassView { class, members, exemplar, files, kind: doc.files[f].disposition },
        ),
        None => None,
    }
}

/// Every class, generated included. The starting point for a named lookup.
pub fn all<'d>(doc: &'d PlanDocument) -> (r: Vec<ClassView<'d>>)
    ensures
        are_views(r@, doc, |c: ClassEntry| true),
{
    let mut out: Vec<ClassView<'d>> = Vec::new();
    let ghost keep = |c: ClassEntry| true;
    for i in 0..doc.classes.len()
        invariant
            keep == (|c: ClassEntry| true),
            out@.len() == kept_classes(doc, keep, i as nat).len(),
            forall|k: int|
                0 <= k < out@.len() ==> is_view(
                    #[trigger] out@[k],
                    doc,
                    kept_classes(doc, keep, i as nat)[k],
                ),
    {
        if let Some(v) = view(doc, &doc.classes[i]) {
            out.push(v);
        }
    }
    out
}

/// Every class the model is asked to group, largest first: the order the class ids
/// already carry.
///
/// Generated content is left out, exactly as it is left out of the prompt: asking
/// without naming anything gets the offered set, naming something reaches
/// everything.
pub fn index<'d>(doc: &'d PlanDocument) -> (r: Vec<ClassView<'d>>)
    ensures
        are_views(r@, doc, |c: ClassEntry| !class_generated(doc, c)),
{
    let mut out: Vec<ClassView<'d>> = Vec::new();
    let ghost keep = |c: ClassEntry| !class_generated(doc, c);
    for i in 0..doc.classes.len()
        invariant
            keep == (|c: ClassEntry| !class_generated(doc, c)),
            out@.len() == kept_classes(doc, keep, i as nat).len(),
            forall|k: int|
                0 <= k < out@.len() ==> is_view(
                    #[trigger] out@[k],
                    doc,
                    kept_classes(doc, keep, i as nat)[k],
                ),
    {
        if let Some(v) = view(doc, &doc.classes[i]) {
            if !class_is_generated(doc, &doc.classes[i]) {
                out.push(v);
            }
        }
    }
    out
}

/// The first class with an id, from place `from` on.
pub open spec fn first_class(classes: Seq<ClassEntry>, id: Seq<char>, from: int) -> Option<int>
    decreases classes.len() - from,
{
    if from >= classes.len() {
        None
    } else if classes[from].id@ == id {
        Some(from)
    } else {
        first_class(classes, id, from + 1)
    }
}

fn class_place(doc: &PlanDocument, id: &str) -> (r: Option<usize>)
    ensures
        match r {
            Some(i) => i < doc.classes@.len() && first_class(doc.classes@, id@, 0) == Some(
                i as int,
            ),
            None => first_class(doc.classes@, id@, 0) is None,
        },
{
    for i in 0..doc.classes.len()
        invariant
            first_class(doc.classes@, id@, 0) == first_class(doc.classes@, id@, i as int),
    {
        if str_eq(&doc.classes[i].id, id) {
            return Some(i);
        }
    }
    None
}

/// One class by id, generated or not: an explicit id is an explicit request.
pub fn class<'d>(doc: &'d PlanDocument, id: &str) -> (r: Option<ClassView<'d>>)
    ensures
        match first_class(doc.classes@, id@, 0) {
            Some(i) => if shown(doc, doc.classes@[i]) {
                r matches Some(v) && is_view(v, doc, doc.classes@[i])
            } else {
                r is None
            },
            None => r is None,
        },
{
    match class_place(doc, id) {
        Some(i) => view(doc, &doc.classes[i]),
        None => None,
    }
}

/// Whether a class touches a path.
pub open spec fn touches(doc: &PlanDocument, c: ClassEntry, path: Seq<char>) -> bool {
    paths_of(members_of(doc, c), members_of(doc, c).len()).contains(path)
}

/// The classes touching `path`, largest first. A named path reaches generated
/// content too: a reader asking about a lockfile means the lockfile.
pub fn in_file<'d>(doc: &'d PlanDocument, path: &str) -> (r: Vec<ClassView<'d>>)
    ensures
        are_views(r@, doc, |c: ClassEntry| touches(doc, c, path@)),
{
    let mut out: Vec<ClassView<'d>> = Vec::new();
    let ghost keep = |c: ClassEntry| touches(doc, c, path@);
    for i in 0..doc.classes.len()
        invariant
            keep == (|c: ClassEntry| touches(doc, c, path@)),
            out@.len() == kept_classes(doc, keep, i as nat).len(),
            forall|k: int|
                0 <= k < out@.len() ==> is_view(
                    #[trigger] out@[k],
                    doc,
                    kept_classes(doc, keep, i as nat)[k],
                ),
    {
        if let Some(v) = view(doc, &doc.classes[i]) {
            if contains_text(&v.files, path) {
                out.push(v);
            }
        }
    }
    out
}

/// The classes that define `symbol`, from the graph that the document carries.
pub fn definers<'d>(doc: &'d PlanDocument, symbol: &str) -> (r: Vec<ClassView<'d>>)
    ensures
        are_views(r@, doc, |c: ClassEntry| texts(c.defines@).contains(symbol@)),
{
    let mut out: Vec<ClassView<'d>> = Vec::new();
    let ghost keep = |c: ClassEntry| texts(c.defines@).contains(symbol@);
    for i in 0..doc.classes.len()
        invariant
            keep == (|c: ClassEntry| texts(c.defines@).contains(symbol@)),
            out@.len() == kept_classes(doc, keep, i as nat).len(),
            forall|k: int|
                0 <= k < out@.len() ==> is_view(
                    #[trigger] out@[k],
                    doc,
                    kept_classes(doc, keep, i as nat)[k],
                ),
    {
        if let Some(v) = view(doc, &doc.classes[i]) {
            if contains_text(&doc.classes[i].defines, symbol) {
                out.push(v);
            }
        }
    }
    out
}

/// The hunks that a `hN` or `Cn` id names, in canonical order: none for a hunk
/// outside the document or a class that is not there.
pub fn resolve<'d>(doc: &'d PlanDocument, id: &str) -> (r: Option<Vec<&'d HunkEntry>>)
    ensures
        if hunk_number(id@) is Some {
            match hunk_named(doc, id@) {
                Some(h) => r matches Some(v) && entries(v@) == seq![h],
                None => r is None,
            }
        } else {
            match first_class(doc.classes@, id@, 0) {
                Some(i) => r matches Some(v) && entries(v@) == members_of(doc, doc.classes@[i]),
                None => r is None,
            }
        },
{
    if let Ok(h) = HunkId::parse(id) {
        if h.index() < doc.hunks.len() {
            let mut out: Vec<&'d HunkEntry> = Vec::new();
            out.push(&doc.hunks[h.index()]);
            assert(entries(out@) =~= seq![doc.hunks@[h.number()]]);
            return Some(out);
        }
        return None;
    }
    match class_place(doc, id) {
        Some(i) => Some(hunks_of(doc, &doc.classes[i].hunk_ids)),
        None => None,
    }
}

/// Whether a hunk of the document is a member of a class: one of the ids of the class is
/// its number.
pub open spec fn has_member(doc: &PlanDocument, c: ClassEntry, h: int) -> bool {
    0 <= h < doc.hunks@.len() && exists|k: int|
        0 <= k < c.hunk_ids@.len() && hunk_number((#[trigger] c.hunk_ids@[k])@) == Some(h as nat)
}

/// Whether a list shows a class.
pub open spec fn lists(vs: Seq<ClassView>, c: ClassEntry) -> bool {
    exists|i: int| 0 <= i < vs.len() && *(#[trigger] vs[i]).class == c
}

/// A path is one that a class touches where a member lies in it.
proof fn lemma_touches(doc: &PlanDocument, c: ClassEntry, path: Seq<char>)
    ensures
        touches(doc, c, path) <==> exists|h: int| #[trigger]
            has_member(doc, c, h) && doc.hunks@[h].file@ == path,
{
    let ms = members_of(doc, c);
    lemma_paths(ms, path, ms.len());
    lemma_members(doc, c.hunk_ids@, c.hunk_ids@.len());
    if touches(doc, c, path) {
        let i = choose|i: int| 0 <= i < ms.len() && (#[trigger] ms[i]).file@ == path;
        assert(is_named_by(doc, c.hunk_ids@, ms[i]));
        let (h, k) = choose|h: int, k: int|
            0 <= h < doc.hunks@.len() && 0 <= k < c.hunk_ids@.len() && ms[i] == #[trigger] doc.hunks@[h]
                && hunk_number((#[trigger] c.hunk_ids@[k])@) == Some(h as nat);
        assert(has_member(doc, c, h));
    }
    if exists|h: int| #[trigger] has_member(doc, c, h) && doc.hunks@[h].file@ == path {
        let h = choose|h: int| #[trigger] has_member(doc, c, h) && doc.hunks@[h].file@ == path;
        let k = choose|k: int|
            0 <= k < c.hunk_ids@.len() && hunk_number((#[trigger] c.hunk_ids@[k])@) == Some(
                h as nat,
            );
        assert(hunk_named(doc, c.hunk_ids@[k]@) == Some(doc.hunks@[h]));
        assert(ms.contains(doc.hunks@[h]));
        let i = choose|i: int| 0 <= i < ms.len() && ms[i] == doc.hunks@[h];
        assert(ms[i].file@ == path);
    }
}

proof fn lemma_paths(hs: Seq<HunkEntry>, path: Seq<char>, k: nat)
    requires
        k <= hs.len(),
    ensures
        paths_of(hs, k).contains(path) <==> exists|i: int|
            0 <= i < k && (#[trigger] hs[i]).file@ == path,
    decreases k,
{
    if k > 0 {
        lemma_paths(hs, path, (k - 1) as nat);
        let before = paths_of(hs, (k - 1) as nat);
        lemma_push_contains(before, hs[k - 1].file@, path);
        assert(hs[k - 1] == hs[k - 1]);
    }
}

/// Whether one of some ids is the number of a hunk.
spec fn is_named_by(doc: &PlanDocument, ids: Seq<String>, e: HunkEntry) -> bool {
    exists|h: int, j: int|
        0 <= h < doc.hunks@.len() && 0 <= j < ids.len() && e == #[trigger] doc.hunks@[h]
            && hunk_number((#[trigger] ids[j])@) == Some(h as nat)
}

proof fn lemma_members(doc: &PlanDocument, ids: Seq<String>, k: nat)
    requires
        k <= ids.len(),
    ensures
        forall|i: int|
            0 <= i < hunks_named(doc, ids, k).len() ==> is_named_by(
                doc,
                ids,
                #[trigger] hunks_named(doc, ids, k)[i],
            ),
        forall|j: int|
            0 <= j < k && hunk_named(doc, (#[trigger] ids[j])@) is Some ==> hunks_named(
                doc,
                ids,
                k,
            ).contains(hunk_named(doc, ids[j]@)->0),
    decreases k,
{
    if k > 0 {
        lemma_members(doc, ids, (k - 1) as nat);
        let before = hunks_named(doc, ids, (k - 1) as nat);
        let all = hunks_named(doc, ids, k);
        assert forall|i: int| 0 <= i < all.len() implies is_named_by(doc, ids, #[trigger] all[i]) by {
            if i < before.len() {
                assert(all[i] == before[i]);
            } else {
                let n = hunk_number(ids[k - 1]@)->0 as int;
                assert(all[i] == doc.hunks@[n]);
                assert(hunk_number(ids[k - 1]@) == Some(n as nat));
            }
        }
        assert forall|j: int|
            0 <= j < k && hunk_named(doc, (#[trigger] ids[j])@) is Some implies all.contains(
            hunk_named(doc, ids[j]@)->0,
        ) by {
            let x = hunk_named(doc, ids[j]@)->0;
            if j < k - 1 {
                assert(before.contains(x));
                let q = choose|q: int| 0 <= q < before.len() && before[q] == x;
                assert(all[q] == x);
            } else {
                assert(all[before.len() as int] == x);
            }
        }
    }
}

proof fn lemma_kept(doc: &PlanDocument, keep: spec_fn(ClassEntry) -> bool, k: nat, c: ClassEntry)
    requires
        k <= doc.classes@.len(),
    ensures
        kept_classes(doc, keep, k).contains(c) <==> exists|i: int|
            0 <= i < k && #[trigger] doc.classes@[i] == c && shown(doc, c) && keep(c),
    decreases k,
{
    if k > 0 {
        lemma_kept(doc, keep, (k - 1) as nat, c);
        let before = kept_classes(doc, keep, (k - 1) as nat);
        let e = doc.classes@[k - 1];
        lemma_push_contains(before, e, c);
    }
}

proof fn lemma_listed(
    vs: Seq<ClassView>,
    doc: &PlanDocument,
    keep: spec_fn(ClassEntry) -> bool,
    c: int,
)
    requires
        are_views(vs, doc, keep),
        0 <= c < doc.classes@.len(),
    ensures
        lists(vs, doc.classes@[c]) <==> shown(doc, doc.classes@[c]) && keep(doc.classes@[c]),
{
    let e = doc.classes@[c];
    let cs = kept_classes(doc, keep, doc.classes@.len());
    lemma_kept(doc, keep, doc.classes@.len(), e);
    if lists(vs, e) {
        let i = choose|i: int| 0 <= i < vs.len() && *(#[trigger] vs[i]).class == e;
        assert(is_view(vs[i], doc, cs[i]));
        assert(cs.contains(e));
    }
    if cs.contains(e) {
        let i = choose|i: int| 0 <= i < cs.len() && cs[i] == e;
        assert(is_view(vs[i], doc, cs[i]));
    }
}

/// Whether the exemplar of a class is a hunk of the document, in a file of it.
pub open spec fn can_be_shown(doc: &PlanDocument, c: ClassEntry) -> bool {
    exists|h: int, f: int|
        0 <= h < doc.hunks@.len() && 0 <= f < doc.files@.len() && hunk_number(c.exemplar@) == Some(
            h as nat,
        ) && (#[trigger] doc.hunks@[h]).file@ == (#[trigger] doc.files@[f]).path@
}

proof fn lemma_shown(doc: &PlanDocument, c: ClassEntry)
    ensures
        shown(doc, c) <==> can_be_shown(doc, c),
{
    if let Some(n) = hunk_number(c.exemplar@) {
        if n < doc.hunks@.len() {
            let path = doc.hunks@[n as int].file@;
            lemma_file_place(doc.files@, path, 0);
            if let Some(f) = file_place(doc.files@, path, 0) {
                assert(doc.hunks@[n as int].file@ == doc.files@[f].path@);
            }
        }
    }
}

proof fn lemma_file_place(files: Seq<FileEntry>, path: Seq<char>, from: int)
    requires
        0 <= from,
    ensures
        match file_place(files, path, from) {
            Some(i) => from <= i < files.len() && files[i].path@ == path && forall|j: int|
                from <= j < i ==> (#[trigger] files[j]).path@ != path,
            None => forall|j: int| from <= j < files.len() ==> (#[trigger] files[j]).path@ != path,
        },
    decreases files.len() - from,
{
    if from < files.len() && files[from].path@ != path {
        lemma_file_place(files, path, from + 1);
    }
}

/// A path finds the classes with a member in it, a name the classes that define it.
pub proof fn law_a_lookup_finds_every_class_that_answers(
    doc: &PlanDocument,
    path: &str,
    symbol: &str,
    in_path: Vec<ClassView<'_>>,
    defining: Vec<ClassView<'_>>,
    c: int,
)
    requires
        call_ensures(in_file, (doc, path), in_path),
        call_ensures(definers, (doc, symbol), defining),
        0 <= c < doc.classes@.len(),
    ensures
        lists(in_path@, doc.classes@[c]) <==> can_be_shown(doc, doc.classes@[c]) && exists|h: int|
            #[trigger] has_member(doc, doc.classes@[c], h) && doc.hunks@[h].file@ == path@,
        lists(defining@, doc.classes@[c]) <==> can_be_shown(doc, doc.classes@[c]) && exists|k: int|
            0 <= k < doc.classes@[c].defines@.len() && (#[trigger] doc.classes@[c].defines@[k])@
                == symbol@,
{
    let e = doc.classes@[c];
    lemma_listed(in_path@, doc, |c: ClassEntry| touches(doc, c, path@), c);
    lemma_listed(defining@, doc, |c: ClassEntry| texts(c.defines@).contains(symbol@), c);
    lemma_touches(doc, e, path@);
    lemma_shown(doc, e);
    let names = texts(e.defines@);
    if names.contains(symbol@) {
        let k = choose|k: int| 0 <= k < names.len() && names[k] == symbol@;
        assert(e.defines@[k]@ == symbol@);
    }
    if exists|k: int| 0 <= k < e.defines@.len() && (#[trigger] e.defines@[k])@ == symbol@ {
        let k = choose|k: int| 0 <= k < e.defines@.len() && (#[trigger] e.defines@[k])@ == symbol@;
        assert(names[k] == symbol@);
    }
}

/// Everything that can be shown is listed; what the model is asked about leaves out the
/// classes all of whose members lie in generated files.
pub proof fn law_the_offered_classes_are_not_generated(
    doc: &PlanDocument,
    every: Vec<ClassView<'_>>,
    offered: Vec<ClassView<'_>>,
    generated: bool,
    c: int,
)
    requires
        call_ensures(all, (doc,), every),
        call_ensures(index, (doc,), offered),
        0 <= c < doc.classes@.len(),
        call_ensures(class_is_generated, (doc, &doc.classes@[c]), generated),
    ensures
        lists(every@, doc.classes@[c]) <==> can_be_shown(doc, doc.classes@[c]),
        lists(offered@, doc.classes@[c]) <==> can_be_shown(doc, doc.classes@[c]) && !generated,
{
    lemma_listed(every@, doc, |c: ClassEntry| true, c);
    lemma_listed(offered@, doc, |c: ClassEntry| !class_generated(doc, c), c);
    lemma_shown(doc, doc.classes@[c]);
}

} // verus!
