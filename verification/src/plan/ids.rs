//! Hunk identity, and a validated index over a plan document.
use vstd::prelude::*;

use crate::schema::{
    class_names, find_class, last_pos, lemma_last_pos, ClassEntry, FileEntry, Group, HunkEntry,
    PlanDocument,
};
use crate::seqs::texts;
use crate::text::{
    debug_text, decimal, law_decimal_round_trip, parse_unsigned, push_decimal, push_str, quoted,
    unsigned_value,
};
use crate::EngineError;

verus! {

/// A canonical hunk, in memory. The wire form is `h<N>`, where N indexes the
/// document's hunks.
#[derive(Debug, Clone, Copy, PartialEq, Eq, Structural, PartialOrd, Ord, Hash)]
pub struct HunkId(usize);

/// The number in a hunk id: `h`, then an unsigned number.
pub open spec fn hunk_number(s: Seq<char>) -> Option<nat> {
    if s.len() > 0 && s[0] == 'h' {
        unsigned_value(s.drop_first(), usize::MAX as nat)
    } else {
        None
    }
}

/// What is said of a hunk id that cannot be read.
pub open spec fn malformed(s: Seq<char>) -> Seq<char> {
    "malformed hunk id "@ + debug_text(s) + "; expected h<N>"@
}

impl HunkId {
    /// The number of the hunk.
    pub closed spec fn number(self) -> int {
        self.0 as int
    }

    /// The id of a hunk by its place.
    pub fn from_index(index: usize) -> (r: Self)
        ensures
            r.number() == index,
    {
        HunkId(index)
    }

    /// The place of the hunk.
    pub fn index(self) -> (r: usize)
        ensures
            r == self.number(),
    {
        self.0
    }

    /// Parse the wire form. A malformed id means that the document contradicts
    /// its own contract, so the caller gets an error to propagate.
    pub fn parse(s: &str) -> (r: Result<Self, EngineError>)
        ensures
            match r {
                Ok(h) => h.number() >= 0 && hunk_number(s@) == Some(h.number() as nat),
                Err(e) => hunk_number(s@) is None && (e matches EngineError::PlanIntegrity(msg)
                    && msg@ == malformed(s@)),
            },
    {
        let cs = crate::text::chars_of(s);
        if cs.len() > 0 && cs[0] == 'h' {
            let rest = crate::text::string_of(
                vstd::slice::slice_subrange(cs.as_slice(), 1, cs.len()),
            );
            assert(rest@ =~= s@.drop_first());
            if let Some(n) = parse_unsigned(&rest, usize::MAX as u64) {
                return Ok(HunkId(n as usize));
            }
        }
        let mut msg = String::new();
        push_str(&mut msg, "malformed hunk id ");
        push_str(&mut msg, &quoted(s));
        push_str(&mut msg, "; expected h<N>");
        assert(msg@ =~= malformed(s@));
        Err(EngineError::PlanIntegrity(msg))
    }

    /// The wire form, which `parse` reads back.
    pub fn to_string(&self) -> (r: String)
        ensures
            r@ == seq!['h'] + decimal(self.number() as nat),
    {
        let mut out = String::new();
        out.push('h');
        push_decimal(&mut out, self.0 as u64);
        assert(out@ =~= seq!['h'] + decimal(self.number() as nat));
        out
    }
}

/// Hunk ids round-trip through the wire form.
pub proof fn law_hunk_id_round_trip(n: nat)
    requires
        n <= usize::MAX,
    ensures
        hunk_number(seq!['h'] + decimal(n)) == Some(n),
{
    let s = seq!['h'] + decimal(n);
    assert(s.drop_first() =~= decimal(n));
    law_decimal_round_trip(n, usize::MAX as nat);
}

/// The numbers that a list of hunk ids names.
pub open spec fn numbers(ids: Seq<HunkId>) -> Seq<int> {
    ids.map_values(|h: HunkId| h.number())
}

/// What is wrong with a hunk id in a document of `n` hunks.
pub open spec fn id_fault(id: Seq<char>, n: nat) -> Option<Seq<char>> {
    match hunk_number(id) {
        None => Some(malformed(id)),
        Some(h) => if h >= n {
            Some(
                "hunk id "@ + id + " is out of range: the document has "@ + decimal(n) + " hunks"@,
            )
        } else {
            None
        },
    }
}

/// What is wrong with the first faulty one of some ids.
pub open spec fn first_id_fault(ids: Seq<Seq<char>>, n: nat, from: int) -> Option<Seq<char>>
    decreases ids.len() - from,
{
    if from >= ids.len() {
        None
    } else {
        match id_fault(ids[from], n) {
            Some(m) => Some(m),
            None => first_id_fault(ids, n, from + 1),
        }
    }
}

/// The hunk ids that classes name: each exemplar, then the members.
pub open spec fn class_ids(classes: Seq<ClassEntry>) -> Seq<Seq<char>>
    decreases classes.len(),
{
    if classes.len() == 0 {
        Seq::empty()
    } else {
        class_ids(classes.drop_last()).push(classes.last().exemplar@) + texts(
            classes.last().hunk_ids@,
        )
    }
}

/// The hunk ids that files name.
pub open spec fn file_ids(files: Seq<FileEntry>) -> Seq<Seq<char>>
    decreases files.len(),
{
    if files.len() == 0 {
        Seq::empty()
    } else {
        file_ids(files.drop_last()) + texts(files.last().hunk_ids@)
    }
}

/// What is said of a group that names an undefined class.
pub open spec fn missing_class(group: Seq<char>, class: Seq<char>) -> Seq<char> {
    "group "@ + group + " references class "@ + class + ", which the document does not define"@
}

/// What is wrong with the classes that a group names, from place `from` on.
pub open spec fn group_fault(
    group: Seq<char>,
    ids: Seq<Seq<char>>,
    known: Seq<Seq<char>>,
    from: int,
) -> Option<Seq<char>>
    decreases ids.len() - from,
{
    if from >= ids.len() {
        None
    } else if !known.contains(ids[from]) {
        Some(missing_class(group, ids[from]))
    } else {
        group_fault(group, ids, known, from + 1)
    }
}

/// What is wrong with the first faulty one of some groups.
pub open spec fn first_group_fault(
    groups: Seq<Group>,
    known: Seq<Seq<char>>,
    from: int,
) -> Option<Seq<char>>
    decreases groups.len() - from,
{
    if from >= groups.len() {
        None
    } else {
        match group_fault(groups[from].id@, texts(groups[from].class_ids@), known, 0) {
            Some(m) => Some(m),
            None => first_group_fault(groups, known, from + 1),
        }
    }
}

/// The groups of a document; none before the grouping stage has run.
pub open spec fn groups_of(doc: &PlanDocument) -> Seq<Group> {
    match doc.groups {
        Some(groups) => groups@,
        None => Seq::empty(),
    }
}

/// What is wrong with a document, if anything: first the ids that the classes
/// name, then those of the files, then the classes that the groups name.
pub open spec fn fault(doc: &PlanDocument) -> Option<Seq<char>> {
    match first_id_fault(class_ids(doc.classes@) + file_ids(doc.files@), doc.hunks@.len(), 0) {
        Some(m) => Some(m),
        None => first_group_fault(groups_of(doc), class_names(doc.classes@), 0),
    }
}

/// Whether a hunk id names a hunk of the document.
pub open spec fn id_ok(doc: &PlanDocument, id: Seq<char>) -> bool {
    hunk_number(id) matches Some(h) && h < doc.hunks@.len()
}

/// Whether a document does not contradict itself.
pub open spec fn valid(doc: &PlanDocument) -> bool {
    &&& forall|c: int|
        0 <= c < doc.classes@.len() ==> class_ok(doc, #[trigger] doc.classes@[c])
    &&& forall|f: int| 0 <= f < doc.files@.len() ==> file_ok(doc, #[trigger] doc.files@[f])
    &&& forall|g: int|
        0 <= g < groups_of(doc).len() ==> group_ok(doc, #[trigger] groups_of(doc)[g])
}

pub open spec fn class_ok(doc: &PlanDocument, c: ClassEntry) -> bool {
    &&& id_ok(doc, c.exemplar@)
    &&& forall|k: int| 0 <= k < c.hunk_ids@.len() ==> id_ok(doc, (#[trigger] c.hunk_ids@[k])@)
}

pub open spec fn file_ok(doc: &PlanDocument, f: FileEntry) -> bool {
    forall|k: int| 0 <= k < f.hunk_ids@.len() ==> id_ok(doc, (#[trigger] f.hunk_ids@[k])@)
}

pub open spec fn group_ok(doc: &PlanDocument, g: Group) -> bool {
    forall|k: int|
        0 <= k < g.class_ids@.len() ==> class_names(doc.classes@).contains(
            (#[trigger] g.class_ids@[k])@,
        )
}

/// The class that an id names.
pub open spec fn class_at(doc: &PlanDocument, id: Seq<char>) -> ClassEntry {
    doc.classes@[last_pos(class_names(doc.classes@), id)->0]
}

/// The hunk numbers that some ids name.
pub open spec fn numbers_of(ids: Seq<Seq<char>>) -> Seq<int> {
    Seq::new(ids.len(), |k: int| hunk_number(ids[k])->0 as int)
}

/// The hunks of a class.
pub open spec fn class_numbers(doc: &PlanDocument, id: Seq<char>) -> Seq<int> {
    numbers_of(texts(class_at(doc, id).hunk_ids@))
}

/// The hunks of some classes, in class order.
pub open spec fn group_numbers(doc: &PlanDocument, ids: Seq<Seq<char>>) -> Seq<int>
    decreases ids.len(),
{
    if ids.len() == 0 {
        Seq::empty()
    } else {
        group_numbers(doc, ids.drop_last()) + class_numbers(doc, ids.last())
    }
}

/// A plan document's lookups, validated once: every accessor is total.
pub struct PlanIndex<'d> {
    doc: &'d PlanDocument,
}

proof fn lemma_first_id_fault(ids: Seq<Seq<char>>, n: nat, from: int)
    requires
        0 <= from <= ids.len(),
    ensures
        first_id_fault(ids, n, from) is None <==> forall|k: int|
            from <= k < ids.len() ==> id_fault(#[trigger] ids[k], n) is None,
    decreases ids.len() - from,
{
    if from < ids.len() {
        lemma_first_id_fault(ids, n, from + 1);
    }
}

proof fn lemma_group_fault(
    group: Seq<char>,
    ids: Seq<Seq<char>>,
    known: Seq<Seq<char>>,
    from: int,
)
    requires
        0 <= from <= ids.len(),
    ensures
        group_fault(group, ids, known, from) is None <==> forall|k: int|
            from <= k < ids.len() ==> known.contains(#[trigger] ids[k]),
    decreases ids.len() - from,
{
    if from < ids.len() {
        lemma_group_fault(group, ids, known, from + 1);
    }
}

proof fn lemma_first_group_fault(doc: &PlanDocument, from: int)
    requires
        0 <= from <= groups_of(doc).len(),
    ensures
        first_group_fault(groups_of(doc), class_names(doc.classes@), from) is None <==> forall|
            g: int,
        |
            from <= g < groups_of(doc).len() ==> group_ok(doc, #[trigger] groups_of(doc)[g]),
    decreases groups_of(doc).len() - from,
{
    let groups = groups_of(doc);
    if from < groups.len() {
        lemma_first_group_fault(doc, from + 1);
        let ids = texts(groups[from].class_ids@);
        let known = class_names(doc.classes@);
        lemma_group_fault(groups[from].id@, ids, known, 0);
        assert(group_ok(doc, groups[from]) <==> forall|k: int|
            0 <= k < ids.len() ==> known.contains(#[trigger] ids[k])) by {
            assert forall|k: int| 0 <= k < ids.len() implies ids[k]
                == groups[from].class_ids@[k]@ by {}
            if group_ok(doc, groups[from]) {
                assert forall|k: int| 0 <= k < ids.len() implies known.contains(
                    #[trigger] ids[k],
                ) by {
                    assert(known.contains(groups[from].class_ids@[k]@));
                }
            }
            if forall|k: int| 0 <= k < ids.len() ==> known.contains(#[trigger] ids[k]) {
                assert forall|k: int| 0 <= k < groups[from].class_ids@.len() implies known.contains(
                    (#[trigger] groups[from].class_ids@[k])@,
                ) by {
                    assert(known.contains(ids[k]));
                }
            }
        }
    }
}

proof fn lemma_class_ids(classes: Seq<ClassEntry>, doc: &PlanDocument)
    ensures
        (forall|k: int| 0 <= k < class_ids(classes).len() ==> id_ok(doc, #[trigger] class_ids(classes)[k]))
            <==> (forall|c: int| 0 <= c < classes.len() ==> class_ok(doc, #[trigger] classes[c])),
    decreases classes.len(),
{
    if classes.len() > 0 {
        let p = classes.drop_last();
        let last = classes.last();
        lemma_class_ids(p, doc);
        let a = class_ids(p);
        let all = class_ids(classes);
        let m = texts(last.hunk_ids@);
        let all_ok = forall|k: int| 0 <= k < all.len() ==> id_ok(doc, #[trigger] all[k]);
        let each = forall|c: int| 0 <= c < classes.len() ==> class_ok(doc, #[trigger] classes[c]);
        if all_ok {
            assert forall|k: int| 0 <= k < a.len() implies id_ok(doc, #[trigger] a[k]) by {
                assert(all[k] == a[k]);
            }
            assert(all[a.len() as int] == last.exemplar@);
            assert forall|k: int| 0 <= k < last.hunk_ids@.len() implies id_ok(
                doc,
                (#[trigger] last.hunk_ids@[k])@,
            ) by {
                assert(all[a.len() + 1 + k] == m[k]);
            }
            assert forall|c: int| 0 <= c < classes.len() implies class_ok(
                doc,
                #[trigger] classes[c],
            ) by {
                if c < p.len() {
                    assert(p[c] == classes[c]);
                }
            }
        }
        if each {
            assert forall|c: int| 0 <= c < p.len() implies class_ok(doc, #[trigger] p[c]) by {
                assert(p[c] == classes[c]);
            }
            assert(class_ok(doc, classes[classes.len() - 1]));
            assert forall|k: int| 0 <= k < all.len() implies id_ok(doc, #[trigger] all[k]) by {
                if k < a.len() {
                    assert(all[k] == a[k]);
                } else if k > a.len() {
                    assert(all[k] == last.hunk_ids@[k - a.len() - 1]@);
                }
            }
        }
    }
}

proof fn lemma_file_ids(files: Seq<FileEntry>, doc: &PlanDocument)
    ensures
        (forall|k: int| 0 <= k < file_ids(files).len() ==> id_ok(doc, #[trigger] file_ids(files)[k]))
            <==> (forall|f: int| 0 <= f < files.len() ==> file_ok(doc, #[trigger] files[f])),
    decreases files.len(),
{
    if files.len() > 0 {
        let p = files.drop_last();
        let last = files.last();
        lemma_file_ids(p, doc);
        let a = file_ids(p);
        let all = file_ids(files);
        let m = texts(last.hunk_ids@);
        let all_ok = forall|k: int| 0 <= k < all.len() ==> id_ok(doc, #[trigger] all[k]);
        let each = forall|f: int| 0 <= f < files.len() ==> file_ok(doc, #[trigger] files[f]);
        if all_ok {
            assert forall|k: int| 0 <= k < a.len() implies id_ok(doc, #[trigger] a[k]) by {
                assert(all[k] == a[k]);
            }
            assert forall|k: int| 0 <= k < last.hunk_ids@.len() implies id_ok(
                doc,
                (#[trigger] last.hunk_ids@[k])@,
            ) by {
                assert(all[a.len() + k] == m[k]);
            }
            assert forall|f: int| 0 <= f < files.len() implies file_ok(doc, #[trigger] files[f]) by {
                if f < p.len() {
                    assert(p[f] == files[f]);
                }
            }
        }
        if each {
            assert forall|f: int| 0 <= f < p.len() implies file_ok(doc, #[trigger] p[f]) by {
                assert(p[f] == files[f]);
            }
            assert(file_ok(doc, files[files.len() - 1]));
            assert forall|k: int| 0 <= k < all.len() implies id_ok(doc, #[trigger] all[k]) by {
                if k < a.len() {
                    assert(all[k] == a[k]);
                } else {
                    assert(all[k] == last.hunk_ids@[k - a.len()]@);
                }
            }
        }
    }
}

/// A document is valid exactly where no fault is found.
pub proof fn law_fault_iff_invalid(doc: &PlanDocument)
    ensures
        fault(doc) is None <==> valid(doc),
{
    let a = class_ids(doc.classes@);
    let b = file_ids(doc.files@);
    let all = a + b;
    let n = doc.hunks@.len();
    lemma_first_id_fault(all, n, 0);
    lemma_class_ids(doc.classes@, doc);
    lemma_file_ids(doc.files@, doc);
    lemma_first_group_fault(doc, 0);
    assert forall|id: Seq<char>| #[trigger] id_fault(id, n) is None <==> id_ok(doc, id) by {}
    if forall|k: int| 0 <= k < all.len() ==> id_fault(#[trigger] all[k], n) is None {
        assert forall|k: int| 0 <= k < a.len() implies id_ok(doc, #[trigger] a[k]) by {
            assert(all[k] == a[k]);
        }
        assert forall|k: int| 0 <= k < b.len() implies id_ok(doc, #[trigger] b[k]) by {
            assert(all[a.len() + k] == b[k]);
        }
    }
    if valid(doc) {
        assert forall|k: int| 0 <= k < all.len() implies id_fault(#[trigger] all[k], n) is None by {
            if k < a.len() {
                assert(id_ok(doc, a[k]));
            } else {
                assert(id_ok(doc, b[k - a.len()]));
            }
        }
    }
}

/// Every hunk id that classes and files name, in order.
fn collect_ids(doc: &PlanDocument) -> (r: Vec<String>)
    ensures
        texts(r@) == class_ids(doc.classes@) + file_ids(doc.files@),
{
    let mut out: Vec<String> = Vec::new();
    assert(texts(out@) =~= class_ids(doc.classes@.take(0)));
    for c in 0..doc.classes.len()
        invariant
            texts(out@) == class_ids(doc.classes@.take(c as int)),
    {
        let class = &doc.classes[c];
        let ghost had = texts(out@);
        proof {
            assert(doc.classes@.take(c + 1).drop_last() =~= doc.classes@.take(c as int));
            assert(doc.classes@.take(c + 1).last() == *class);
        }
        out.push(class.exemplar.clone());
        assert(texts(out@) =~= had.push(class.exemplar@));
        let mut members = crate::text::copy_texts(&class.hunk_ids);
        let ghost mid = texts(out@);
        let ghost more = texts(members@);
        out.append(&mut members);
        assert(texts(out@) =~= mid + more);
    }
    assert(doc.classes@.take(doc.classes@.len() as int) =~= doc.classes@);
    let ghost first = class_ids(doc.classes@);
    assert(texts(out@) =~= first + file_ids(doc.files@.take(0)));
    for f in 0..doc.files.len()
        invariant
            texts(out@) == first + file_ids(doc.files@.take(f as int)),
    {
        proof {
            assert(doc.files@.take(f + 1).drop_last() =~= doc.files@.take(f as int));
            assert(doc.files@.take(f + 1).last() == doc.files@[f as int]);
        }
        let mut members = crate::text::copy_texts(&doc.files[f].hunk_ids);
        let ghost mid = texts(out@);
        let ghost more = texts(members@);
        out.append(&mut members);
        assert(texts(out@) =~= mid + more);
        assert(texts(out@) =~= first + file_ids(doc.files@.take(f + 1)));
    }
    assert(doc.files@.take(doc.files@.len() as int) =~= doc.files@);
    out
}

/// Check one hunk id.
fn check_id(id: &str, n: usize) -> (r: Option<String>)
    ensures
        match r {
            Some(m) => id_fault(id@, n as nat) == Some(m@),
            None => id_fault(id@, n as nat) is None,
        },
{
    match HunkId::parse(id) {
        Ok(h) => {
            if h.index() >= n {
                let mut msg = String::new();
                push_str(&mut msg, "hunk id ");
                push_str(&mut msg, id);
                push_str(&mut msg, " is out of range: the document has ");
                push_decimal(&mut msg, n as u64);
                push_str(&mut msg, " hunks");
                assert(msg@ =~= "hunk id "@ + id@ + " is out of range: the document has "@
                    + decimal(n as nat) + " hunks"@);
                Some(msg)
            } else {
                None
            }
        },
        Err(e) => match e {
            EngineError::PlanIntegrity(m) => Some(m),
            _ => {
                assert(false);
                Some(String::new())
            },
        },
    }
}

impl<'d> PlanIndex<'d> {
    /// The document that is indexed.
    pub closed spec fn document(&self) -> PlanDocument {
        *self.doc
    }

    #[verifier::type_invariant]
    closed spec fn checked(self) -> bool {
        valid(self.doc)
    }

    /// Build, validating every id the document refers to: hunk ids parse and are
    /// in range, class ids that groups name exist.
    pub fn build(doc: &'d PlanDocument) -> (r: Result<Self, EngineError>)
        ensures
            match r {
                Ok(index) => fault(doc) is None && valid(doc) && index.document() == *doc,
                Err(e) => e matches EngineError::PlanIntegrity(m) && fault(doc) == Some(m@),
            },
    {
        let n = doc.hunks.len();
        let ids = collect_ids(doc);
        let ghost all = texts(ids@);
        for i in 0..ids.len()
            invariant
                all == texts(ids@),
                all == class_ids(doc.classes@) + file_ids(doc.files@),
                n == doc.hunks@.len(),
                first_id_fault(all, n as nat, 0) == first_id_fault(all, n as nat, i as int),
        {
            if let Some(m) = check_id(&ids[i], n) {
                return Err(EngineError::PlanIntegrity(m));
            }
        }
        if let Some(groups) = &doc.groups {
            let ghost known = class_names(doc.classes@);
            for g in 0..groups.len()
                invariant
                    known == class_names(doc.classes@),
                    groups@ == groups_of(doc),
                    fault(doc) == first_group_fault(groups@, known, g as int),
            {
                let ghost names = texts(groups@[g as int].class_ids@);
                let list = &groups[g].class_ids;
                for k in 0..list.len()
                    invariant
                        *list == groups@[g as int].class_ids,
                        g < groups@.len(),
                        names == texts(groups@[g as int].class_ids@),
                        known == class_names(doc.classes@),
                        groups@ == groups_of(doc),
                        fault(doc) == first_group_fault(groups@, known, g as int),
                        group_fault(groups@[g as int].id@, names, known, 0) == group_fault(
                            groups@[g as int].id@,
                            names,
                            known,
                            k as int,
                        ),
                {
                    let cid = &list[k];
                    proof {
                        lemma_last_pos(known, cid@);
                        assert(names[k as int] == cid@);
                    }
                    if find_class(&doc.classes, cid).is_none() {
                        let mut msg = String::new();
                        push_str(&mut msg, "group ");
                        push_str(&mut msg, &groups[g].id);
                        push_str(&mut msg, " references class ");
                        push_str(&mut msg, cid);
                        push_str(&mut msg, ", which the document does not define");
                        assert(msg@ =~= missing_class(groups@[g as int].id@, cid@));
                        return Err(EngineError::PlanIntegrity(msg));
                    }
                }
            }
        }
        proof {
            law_fault_iff_invalid(doc);
        }
        Ok(PlanIndex { doc })
    }

    /// The document that is indexed.
    pub fn doc(&self) -> (r: &'d PlanDocument)
        ensures
            *r == self.document(),
            valid(r),
    {
        proof {
            use_type_invariant(self);
        }
        self.doc
    }

    /// The document's groups, or none for a document without the grouping stage.
    pub fn groups(&self) -> (r: &'d [Group])
        ensures
            r@ == groups_of(&self.document()),
            forall|g: int| 0 <= g < r@.len() ==> group_ok(&self.document(), #[trigger] r@[g]),
    {
        proof {
            use_type_invariant(self);
        }
        match &self.doc.groups {
            Some(groups) => groups.as_slice(),
            None => {
                let none: &[Group; 0] = &[];
                assert(none@ =~= Seq::<Group>::empty());
                none.as_slice()
            },
        }
    }

    /// The class that an id names.
    pub fn class(&self, id: &str) -> (r: &'d ClassEntry)
        requires
            class_names(self.document().classes@).contains(id@),
        ensures
            *r == class_at(&self.document(), id@),
            class_ok(&self.document(), *r),
    {
        proof {
            use_type_invariant(self);
            lemma_last_pos(class_names(self.doc.classes@), id@);
        }
        match find_class(&self.doc.classes, id) {
            Some(i) => &self.doc.classes[i],
            None => {
                assert(false);
                &self.doc.classes[0]
            },
        }
    }

    /// The entry of a hunk.
    pub fn hunk(&self, h: HunkId) -> (r: &'d HunkEntry)
        requires
            h.number() < self.document().hunks@.len(),
        ensures
            *r == self.document().hunks@[h.number()],
    {
        &self.doc.hunks[h.index()]
    }

    /// The exemplar of a class.
    pub fn exemplar(&self, class_id: &str) -> (r: HunkId)
        requires
            class_names(self.document().classes@).contains(class_id@),
        ensures
            hunk_number(class_at(&self.document(), class_id@).exemplar@) == Some(r.number() as nat),
            0 <= r.number() < self.document().hunks@.len(),
    {
        let c = self.class(class_id);
        parsed(&c.exemplar)
    }

    /// The members of a class.
    pub fn class_hunks(&self, class_id: &str) -> (r: Vec<HunkId>)
        requires
            class_names(self.document().classes@).contains(class_id@),
        ensures
            numbers(r@) == class_numbers(&self.document(), class_id@),
            forall|i: int|
                0 <= i < r@.len() ==> 0 <= (#[trigger] r@[i]).number() < self.document().hunks@.len(),
    {
        let c = self.class(class_id);
        parse_all(self.doc, &c.hunk_ids)
    }

    /// Group members in class order.
    pub fn group_hunks(&self, group: &Group) -> (r: Vec<HunkId>)
        requires
            group_ok(&self.document(), *group),
        ensures
            numbers(r@) == group_numbers(&self.document(), texts(group.class_ids@)),
            forall|i: int|
                0 <= i < r@.len() ==> 0 <= (#[trigger] r@[i]).number() < self.document().hunks@.len(),
    {
        let mut out: Vec<HunkId> = Vec::new();
        let ghost ids = texts(group.class_ids@);
        assert(numbers(out@) =~= group_numbers(&self.document(), ids.take(0)));
        for k in 0..group.class_ids.len()
            invariant
                group_ok(&self.document(), *group),
                ids == texts(group.class_ids@),
                numbers(out@) == group_numbers(&self.document(), ids.take(k as int)),
                forall|i: int|
                    0 <= i < out@.len() ==> 0 <= (#[trigger] out@[i]).number()
                        < self.document().hunks@.len(),
        {
            proof {
                assert(ids.take(k + 1).drop_last() =~= ids.take(k as int));
                assert(ids.take(k + 1).last() == group.class_ids@[k as int]@);
            }
            let mut more = self.class_hunks(&group.class_ids[k]);
            let ghost a = out@;
            let ghost b = more@;
            out.append(&mut more);
            assert(out@ == a + b);
            assert(numbers(out@) =~= numbers(a) + numbers(b));
        }
        assert(ids.take(ids.len() as int) =~= ids);
        out
    }

    /// The hunks of a file, in file order.
    pub fn file_hunks(&self, file: &FileEntry) -> (r: Vec<HunkId>)
        requires
            file_ok(&self.document(), *file),
        ensures
            numbers(r@) == numbers_of(texts(file.hunk_ids@)),
            forall|i: int|
                0 <= i < r@.len() ==> 0 <= (#[trigger] r@[i]).number() < self.document().hunks@.len(),
    {
        parse_all(self.doc, &file.hunk_ids)
    }
}

/// Read an id that is known to be well formed.
fn parsed(id: &str) -> (r: HunkId)
    requires
        hunk_number(id@) is Some,
    ensures
        hunk_number(id@) == Some(r.number() as nat),
        r.number() >= 0,
{
    match HunkId::parse(id) {
        Ok(h) => h,
        Err(_) => {
            assert(false);
            HunkId(0)
        },
    }
}

fn parse_all(doc: &PlanDocument, ids: &Vec<String>) -> (r: Vec<HunkId>)
    requires
        forall|k: int| 0 <= k < ids@.len() ==> id_ok(doc, (#[trigger] ids@[k])@),
    ensures
        numbers(r@) == numbers_of(texts(ids@)),
        forall|i: int|
            0 <= i < r@.len() ==> 0 <= (#[trigger] r@[i]).number() < doc.hunks@.len(),
{
    let mut out: Vec<HunkId> = Vec::new();
    for k in 0..ids.len()
        invariant
            forall|k: int| 0 <= k < ids@.len() ==> id_ok(doc, (#[trigger] ids@[k])@),
            out@.len() == k,
            forall|i: int|
                0 <= i < k ==> 0 <= (#[trigger] out@[i]).number() < doc.hunks@.len()
                    && hunk_number(ids@[i]@) == Some(out@[i].number() as nat),
    {
        assert(id_ok(doc, ids@[k as int]@));
        out.push(parsed(&ids[k]));
    }
    assert(numbers(out@) =~= numbers_of(texts(ids@)));
    out
}

} // verus!
