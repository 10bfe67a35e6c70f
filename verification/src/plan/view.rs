//! A renderer-agnostic projection of one plan document: group totals, file
//! totals, resolved dependency edges, reviewed-mark keys, computed once.
use vstd::prelude::*;

use crate::plan::identity::{class_content_key, content_key};
use crate::plan::ids::{
    class_numbers, fault, file_ok, group_numbers, group_ok, groups_of, numbers, numbers_of, valid,
    HunkId, PlanIndex,
};
use crate::plan::tiers::{
    group_has, has_hunk, is_named, lemma_last_is_last, lemma_listed, lemma_named,
};
use crate::plan::{effort_name, effort_text, LineCounts};
use crate::schema::{
    class_names, find_group, group_names, last_pos, lemma_last_pos, place, Effort, FileEntry, Group,
    PlanDocument, Role,
};
use crate::seqs::texts;
use crate::text::{contains_text, copy_texts, str_eq};
use crate::EngineError;

verus! {

/// One resolved `depends_on` edge.
#[derive(Debug, Clone, PartialEq, Eq)]
pub struct Dependency {
    pub id: String,
    pub label: String,
    /// The dependency appears later in the plan: the two groups depend on each
    /// other and the order had to break the cycle.
    pub unsatisfied: bool,
}

/// One group of the projection.
#[derive(Debug, Clone, PartialEq, Eq)]
pub struct GroupView {
    pub id: String,
    pub label: String,
    pub effort: Effort,
    pub role: Option<Role>,
    pub class_ids: Vec<String>,
    /// Class content keys, the reviewed-mark keys, in `class_ids` order.
    pub class_keys: Vec<String>,
    /// Members in class order.
    pub hunks: Vec<HunkId>,
    /// Distinct paths touched.
    pub n_files: usize,
    pub counts: LineCounts,
    pub depends_on: Vec<Dependency>,
    /// The audit's back-fill: classes the model omitted, read last.
    pub unclassified: bool,
}

/// One file of the projection.
#[derive(Debug, Clone, PartialEq, Eq)]
pub struct FileView {
    pub path: String,
    /// Canonical hunks, file order.
    pub hunks: Vec<HunkId>,
    pub counts: LineCounts,
}

/// The projection. Owned, not borrowing the document.
#[derive(Debug, Clone, PartialEq, Eq)]
pub struct ReviewView {
    pub groups: Vec<GroupView>,
    /// Every file in the document, document order.
    pub files: Vec<FileView>,
    /// The place of the group that owns each hunk.
    pub group_of: Vec<Option<usize>>,
    /// The digest of each hunk.
    pub digests: Vec<String>,
    /// Each class id with its key.
    pub class_keys: Vec<(String, String)>,
    /// The key of each hunk's class.
    pub hunk_keys: Vec<Option<String>>,
}

/// The largest count that is kept: a larger one stays there.
pub open spec fn saturated(n: nat) -> u64 {
    if n <= u64::MAX {
        n as u64
    } else {
        u64::MAX
    }
}

/// The lines that hunks add.
pub open spec fn adds_of(doc: &PlanDocument, hs: Seq<int>) -> nat
    decreases hs.len(),
{
    if hs.len() == 0 {
        0
    } else {
        adds_of(doc, hs.drop_last()) + doc.hunks@[hs.last()].new_count as nat
    }
}

/// The lines that hunks delete.
pub open spec fn dels_of(doc: &PlanDocument, hs: Seq<int>) -> nat
    decreases hs.len(),
{
    if hs.len() == 0 {
        0
    } else {
        dels_of(doc, hs.drop_last()) + doc.hunks@[hs.last()].old_count as nat
    }
}

pub open spec fn counts_of(doc: &PlanDocument, hs: Seq<int>) -> LineCounts {
    LineCounts { adds: saturated(adds_of(doc, hs)), dels: saturated(dels_of(doc, hs)) }
}

/// The files that hunks lie in.
pub open spec fn touched(doc: &PlanDocument, hs: Seq<int>) -> Seq<Seq<char>> {
    Seq::new(hs.len(), |i: int| doc.hunks@[hs[i]].file@)
}

/// The digests of the members of a class.
pub open spec fn digests_of(doc: &PlanDocument, id: Seq<char>) -> Seq<Seq<char>> {
    let hs = class_numbers(doc, id);
    Seq::new(hs.len(), |i: int| doc.hunks@[hs[i]].digest@)
}

/// The reviewed-mark key of a class: a pure function of the digests.
pub open spec fn key_of_class(doc: &PlanDocument, id: Seq<char>) -> Seq<char> {
    content_key(digests_of(doc, id))
}

/// The key of the last of the first `k` classes that holds a hunk.
pub open spec fn key_of_hunk(doc: &PlanDocument, k: nat, h: int) -> Option<Seq<char>>
    decreases k,
{
    if k == 0 {
        None
    } else if class_numbers(doc, doc.classes@[k - 1].id@).contains(h) {
        Some(key_of_class(doc, doc.classes@[k - 1].id@))
    } else {
        key_of_hunk(doc, (k - 1) as nat, h)
    }
}

/// The last of the first `k` groups that holds a hunk.
pub open spec fn group_of(doc: &PlanDocument, k: nat, h: int) -> Option<int>
    decreases k,
{
    if k == 0 {
        None
    } else if group_numbers(doc, texts(groups_of(doc)[k - 1].class_ids@)).contains(h) {
        Some(k - 1)
    } else {
        group_of(doc, (k - 1) as nat, h)
    }
}

/// The digests of all hunks.
pub open spec fn all_digests(doc: &PlanDocument) -> Seq<Seq<char>> {
    Seq::new(doc.hunks@.len(), |i: int| doc.hunks@[i].digest@)
}

/// What an edge says: the label of the group it leads to (its id where there is no
/// such group), and whether that group comes later.
pub open spec fn is_edge(d: Dependency, doc: &PlanDocument, id: Seq<char>, rank: int) -> bool {
    let groups = groups_of(doc);
    &&& d.id@ == id
    &&& match last_pos(group_names(groups), id) {
        Some(i) => d.label@ == groups[i].label@ && d.unsatisfied == (i > rank),
        None => d.label@ == id && !d.unsatisfied,
    }
}

/// What the projection says of the group at a place.
pub open spec fn is_group_view(v: GroupView, doc: &PlanDocument, rank: int) -> bool {
    let g = groups_of(doc)[rank];
    let ids = texts(g.class_ids@);
    let hs = group_numbers(doc, ids);
    &&& v.id@ == g.id@
    &&& v.label@ == g.label@
    &&& v.effort == g.effort
    &&& v.role == g.role
    &&& texts(v.class_ids@) == ids
    &&& texts(v.class_keys@) == Seq::new(ids.len(), |k: int| key_of_class(doc, ids[k]))
    &&& numbers(v.hunks@) == hs
    &&& forall|i: int|
        0 <= i < v.hunks@.len() ==> 0 <= (#[trigger] v.hunks@[i]).number() < doc.hunks@.len()
    &&& v.n_files == touched(doc, hs).to_set().len()
    &&& v.counts == counts_of(doc, hs)
    &&& v.depends_on@.len() == g.depends_on@.len()
    &&& forall|i: int|
        0 <= i < v.depends_on@.len() ==> is_edge(
            #[trigger] v.depends_on@[i],
            doc,
            g.depends_on@[i]@,
            rank,
        )
    &&& v.unclassified == ((doc.audit.classes_missing matches Some(m) && m > 0) && rank + 1
        == groups_of(doc).len())
}

/// What the projection says of a file.
pub open spec fn is_file_view(v: FileView, doc: &PlanDocument, f: FileEntry) -> bool {
    let hs = numbers_of(texts(f.hunk_ids@));
    &&& v.path@ == f.path@
    &&& numbers(v.hunks@) == hs
    &&& v.counts == counts_of(doc, hs)
}

/// Count the lines of hunks.
fn count_lines(index: &PlanIndex, hunks: &Vec<HunkId>) -> (r: LineCounts)
    requires
        forall|i: int|
            0 <= i < hunks@.len() ==> 0 <= (#[trigger] hunks@[i]).number()
                < index.document().hunks@.len(),
    ensures
        r == counts_of(&index.document(), numbers(hunks@)),
{
    let ghost doc = index.document();
    let ghost hs = numbers(hunks@);
    let mut adds: u64 = 0;
    let mut dels: u64 = 0;
    for i in 0..hunks.len()
        invariant
            doc == index.document(),
            hs == numbers(hunks@),
            forall|i: int|
                0 <= i < hunks@.len() ==> 0 <= (#[trigger] hunks@[i]).number() < doc.hunks@.len(),
            adds == saturated(adds_of(&doc, hs.take(i as int))),
            dels == saturated(dels_of(&doc, hs.take(i as int))),
    {
        proof {
            assert(hs.take(i + 1).drop_last() =~= hs.take(i as int));
            assert(hs.take(i + 1).last() == hunks@[i as int].number());
        }
        let one = LineCounts::of_hunk(index.hunk(hunks[i]));
        adds = adds.saturating_add(one.adds);
        dels = dels.saturating_add(one.dels);
    }
    assert(hs.take(hs.len() as int) =~= hs);
    LineCounts { adds, dels }
}

/// Count the distinct files of hunks.
fn count_files(index: &PlanIndex, hunks: &Vec<HunkId>) -> (r: usize)
    requires
        forall|i: int|
            0 <= i < hunks@.len() ==> 0 <= (#[trigger] hunks@[i]).number()
                < index.document().hunks@.len(),
    ensures
        r == touched(&index.document(), numbers(hunks@)).to_set().len(),
{
    let ghost doc = index.document();
    let ghost all = touched(&doc, numbers(hunks@));
    let mut seen: Vec<String> = Vec::new();
    assert(texts(seen@).to_set() =~= all.take(0).to_set());
    for i in 0..hunks.len()
        invariant
            doc == index.document(),
            all == touched(&doc, numbers(hunks@)),
            forall|i: int|
                0 <= i < hunks@.len() ==> 0 <= (#[trigger] hunks@[i]).number() < doc.hunks@.len(),
            texts(seen@).no_duplicates(),
            texts(seen@).to_set() == all.take(i as int).to_set(),
    {
        let file = &index.hunk(hunks[i]).file;
        let ghost was = texts(seen@);
        proof {
            assert(file@ == all[i as int]);
            assert(all.take(i + 1) =~= all.take(i as int).push(file@));
            all.take(i as int).lemma_push_to_set_commute(file@);
        }
        if !contains_text(&seen, file) {
            seen.push(file.clone());
            assert(texts(seen@) =~= was.push(file@));
            proof {
                was.lemma_push_to_set_commute(file@);
            }
        } else {
            assert(was.to_set().contains(file@));
            assert(was.to_set().insert(file@) =~= was.to_set());
        }
    }
    proof {
        assert(all.take(all.len() as int) =~= all);
        texts(seen@).unique_seq_to_set();
        assert(texts(seen@).len() == seen@.len());
    }
    seen.len()
}

/// The key of a class.
fn class_key_for(index: &PlanIndex, id: &str) -> (r: String)
    requires
        class_names(index.document().classes@).contains(id@),
    ensures
        r@ == key_of_class(&index.document(), id@),
{
    let members = index.class_hunks(id);
    let ghost doc = index.document();
    let ghost want = digests_of(&doc, id@);
    assert(members@.len() == numbers(members@).len());
    let mut digests: Vec<String> = Vec::new();
    for i in 0..members.len()
        invariant
            doc == index.document(),
            want == digests_of(&doc, id@),
            want.len() == members@.len(),
            numbers(members@) == class_numbers(&doc, id@),
            forall|i: int|
                0 <= i < members@.len() ==> 0 <= (#[trigger] members@[i]).number()
                    < doc.hunks@.len(),
            texts(digests@) == want.take(i as int),
    {
        let ghost had = texts(digests@);
        digests.push(index.hunk(members[i]).digest.clone());
        assert(numbers(members@)[i as int] == members@[i as int].number());
        assert(texts(digests@) =~= had.push(want[i as int]));
        assert(texts(digests@) =~= want.take(i + 1));
    }
    assert(want.take(want.len() as int) =~= want);
    class_content_key(&digests)
}

/// Resolve one edge.
fn resolve_edge(groups: &[Group], id: &String, rank: usize, Ghost(doc): Ghost<PlanDocument>) -> (r:
    Dependency)
    requires
        groups@ == groups_of(&doc),
    ensures
        is_edge(r, &doc, id@, rank as int),
{
    match find_group(groups, id) {
        Some(i) => Dependency {
            id: id.clone(),
            label: groups[i].label.clone(),
            unsatisfied: i > rank,
        },
        None => Dependency { id: id.clone(), label: id.clone(), unsatisfied: false },
    }
}

/// Project one group.
fn project_group(index: &PlanIndex, groups: &[Group], rank: usize, backfilled: bool) -> (r:
    GroupView)
    requires
        groups@ == groups_of(&index.document()),
        rank < groups@.len(),
        group_ok(&index.document(), groups@[rank as int]),
        backfilled == (index.document().audit.classes_missing matches Some(m) && m > 0),
    ensures
        is_group_view(r, &index.document(), rank as int),
        forall|i: int|
            0 <= i < r.hunks@.len() ==> 0 <= (#[trigger] r.hunks@[i]).number()
                < index.document().hunks@.len(),
{
    let ghost doc = index.document();
    let g = &groups[rank];
    let ghost ids = texts(g.class_ids@);
    let hunks = index.group_hunks(g);
    let n_files = count_files(index, &hunks);
    let counts = count_lines(index, &hunks);
    let ghost keys = Seq::new(ids.len(), |k: int| key_of_class(&doc, ids[k]));
    let mut class_keys: Vec<String> = Vec::new();
    for k in 0..g.class_ids.len()
        invariant
            doc == index.document(),
            ids == texts(g.class_ids@),
            group_ok(&doc, *g),
            keys == Seq::new(ids.len(), |k: int| key_of_class(&doc, ids[k])),
            texts(class_keys@) == keys.take(k as int),
    {
        let ghost had = texts(class_keys@);
        assert(class_names(doc.classes@).contains(g.class_ids@[k as int]@));
        class_keys.push(class_key_for(index, &g.class_ids[k]));
        assert(texts(class_keys@) =~= had.push(keys[k as int]));
        assert(texts(class_keys@) =~= keys.take(k + 1));
    }
    assert(keys.take(keys.len() as int) =~= keys);
    let mut depends_on: Vec<Dependency> = Vec::new();
    for i in 0..g.depends_on.len()
        invariant
            doc == index.document(),
            groups@ == groups_of(&doc),
            depends_on@.len() == i,
            forall|j: int|
                0 <= j < i ==> is_edge(
                    #[trigger] depends_on@[j],
                    &doc,
                    g.depends_on@[j]@,
                    rank as int,
                ),
    {
        depends_on.push(resolve_edge(groups, &g.depends_on[i], rank, Ghost(doc)));
    }
    GroupView {
        id: g.id.clone(),
        label: g.label.clone(),
        effort: g.effort,
        role: g.role,
        class_ids: copy_texts(&g.class_ids),
        class_keys,
        n_files,
        counts,
        depends_on,
        unclassified: backfilled && rank == groups.len() - 1,
        hunks,
    }
}

/// Whether a list of numbers holds a hunk.
proof fn lemma_set_entries(ns: Seq<int>, j: int, h: int)
    requires
        0 <= j < ns.len(),
    ensures
        ns.take(j + 1).contains(h) <==> ns.take(j).contains(h) || ns[j] == h,
{
    let a = ns.take(j);
    let b = ns.take(j + 1);
    if a.contains(h) {
        let k = choose|k: int| 0 <= k < a.len() && a[k] == h;
        assert(b[k] == h);
    }
    assert(b[j] == ns[j]);
    if b.contains(h) && ns[j] != h {
        let k = choose|k: int| 0 <= k < b.len() && b[k] == h;
        assert(a[k] == h);
    }
}

pub open spec fn key_text(o: Option<String>) -> Option<Seq<char>> {
    match o {
        Some(s) => Some(s@),
        None => None,
    }
}

impl ReviewView {
    /// The key of a class; `None` for an unknown one.
    pub open spec fn class_mark(&self, id: Seq<char>) -> Option<Seq<char>> {
        match last_pos(pair_names(self.class_keys@), id) {
            Some(i) => Some(self.class_keys@[i].1@),
            None => None,
        }
    }

    /// The key of a hunk; `None` where no class holds it.
    pub open spec fn hunk_mark(&self, h: int) -> Option<Seq<char>> {
        if 0 <= h < self.hunk_keys@.len() {
            key_text(self.hunk_keys@[h])
        } else {
            None
        }
    }

    /// The group that owns a hunk; `None` where none does.
    pub open spec fn group_place(&self, h: int) -> Option<int> {
        if 0 <= h < self.group_of@.len() {
            place(self.group_of@[h])
        } else {
            None
        }
    }

    /// The last hunk with a digest.
    pub open spec fn digest_place(&self, digest: Seq<char>) -> Option<int> {
        last_pos(texts(self.digests@), digest)
    }

    /// Project a document, validating it on the way through.
    ///
    /// Needs no store: reviewed-mark keys are a pure function of the hunk digests
    /// the document already carries.
    pub fn project(doc: &PlanDocument) -> (r: Result<Self, EngineError>)
        ensures
            match r {
                Err(e) => e matches EngineError::PlanIntegrity(m) && fault(doc) == Some(m@),
                Ok(view) => {
                    &&& valid(doc)
                    &&& view.groups@.len() == groups_of(doc).len()
                    &&& forall|g: int|
                        0 <= g < view.groups@.len() ==> is_group_view(
                            #[trigger] view.groups@[g],
                            doc,
                            g,
                        )
                    &&& view.files@.len() == doc.files@.len()
                    &&& forall|f: int|
                        0 <= f < view.files@.len() ==> is_file_view(
                            #[trigger] view.files@[f],
                            doc,
                            doc.files@[f],
                        )
                    &&& forall|id: Seq<char>|
                        #[trigger] view.class_mark(id) == (if class_names(doc.classes@).contains(
                            id,
                        ) {
                            Some(key_of_class(doc, id))
                        } else {
                            None
                        })
                    &&& forall|h: int|
                        0 <= h < doc.hunks@.len() ==> #[trigger] view.hunk_mark(h) == key_of_hunk(
                            doc,
                            doc.classes@.len(),
                            h,
                        )
                    &&& forall|h: int|
                        0 <= h < doc.hunks@.len() ==> #[trigger] view.group_place(h) == group_of(
                            doc,
                            groups_of(doc).len(),
                            h,
                        )
                    &&& forall|h: int|
                        (h < 0 || h >= doc.hunks@.len()) ==> #[trigger] view.hunk_mark(h) is None
                            && view.group_place(h) is None
                    &&& texts(view.digests@) == all_digests(doc)
                },
            },
    {
        let index = match PlanIndex::build(doc) {
            Ok(index) => index,
            Err(e) => {
                return Err(e);
            },
        };
        let n = doc.hunks.len();
        let groups = index.groups();
        let ghost d = index.document();
        assert(d == *doc);

        // Keys of classes and of hunks.
        let mut class_keys: Vec<(String, String)> = Vec::new();
        let mut hunk_keys: Vec<Option<String>> = Vec::new();
        let mut owners: Vec<Option<usize>> = Vec::new();
        for i in 0..n
            invariant
                hunk_keys@.len() == i,
                owners@.len() == i,
                forall|h: int| 0 <= h < i ==> key_text(#[trigger] hunk_keys@[h]) is None,
                forall|h: int| 0 <= h < i ==> (#[trigger] owners@[h]) is None,
        {
            hunk_keys.push(None);
            owners.push(None);
        }
        for c in 0..doc.classes.len()
            invariant
                n == doc.hunks@.len(),
                d == *doc,
                index.document() == d,
                hunk_keys@.len() == n,
                class_keys@.len() == c,
                forall|k: int|
                    0 <= k < c ==> (#[trigger] class_keys@[k]).0@ == doc.classes@[k].id@
                        && class_keys@[k].1@ == key_of_class(doc, doc.classes@[k].id@),
                forall|h: int|
                    0 <= h < n ==> key_text(#[trigger] hunk_keys@[h]) == key_of_hunk(
                        doc,
                        c as nat,
                        h,
                    ),
        {
            let id = &doc.classes[c].id;
            assert(class_names(doc.classes@)[c as int] == id@);
            let key = class_key_for(&index, id);
            let members = index.class_hunks(id);
            let ghost ns = numbers(members@);
            let ghost before = hunk_keys@;
            for j in 0..members.len()
                invariant
                    n == doc.hunks@.len(),
                    hunk_keys@.len() == n,
                    before.len() == n,
                    ns == numbers(members@),
                    forall|i: int|
                        0 <= i < members@.len() ==> 0 <= (#[trigger] members@[i]).number() < n,
                    forall|h: int|
                        0 <= h < n ==> key_text(#[trigger] hunk_keys@[h]) == (if ns.take(
                            j as int,
                        ).contains(h) {
                            Some(key@)
                        } else {
                            key_text(before[h])
                        }),
            {
                let h = members[j];
                let ghost was = hunk_keys@;
                hunk_keys.set(h.index(), Some(key.clone()));
                proof {
                    assert forall|x: int| 0 <= x < n implies key_text(#[trigger] hunk_keys@[x])
                        == (if ns.take(j + 1).contains(x) {
                        Some(key@)
                    } else {
                        key_text(before[x])
                    }) by {
                        lemma_set_entries(ns, j as int, x);
                        assert(ns[j as int] == h.number());
                        if x != h.number() {
                            assert(hunk_keys@[x] == was[x]);
                        }
                    }
                }
            }
            assert(ns.take(ns.len() as int) =~= ns);
            class_keys.push((id.clone(), key));
        }

        // Groups.
        let backfilled = match doc.audit.classes_missing {
            Some(m) => m > 0,
            None => false,
        };
        let mut projected: Vec<GroupView> = Vec::new();
        for g in 0..groups.len()
            invariant
                n == doc.hunks@.len(),
                d == *doc,
                index.document() == d,
                groups@ == groups_of(doc),
                forall|g: int| 0 <= g < groups@.len() ==> group_ok(doc, #[trigger] groups@[g]),
                backfilled == (doc.audit.classes_missing matches Some(m) && m > 0),
                projected@.len() == g,
                forall|k: int|
                    0 <= k < g ==> is_group_view(#[trigger] projected@[k], doc, k),
                owners@.len() == n,
                forall|h: int|
                    0 <= h < n ==> place(#[trigger] owners@[h]) == group_of(doc, g as nat, h),
        {
            assert(group_ok(doc, groups@[g as int]));
            let v = project_group(&index, groups, g, backfilled);
            let ghost ns = numbers(v.hunks@);
            let ghost before = owners@;
            for j in 0..v.hunks.len()
                invariant
                    n == doc.hunks@.len(),
                    g < groups.len(),
                    owners@.len() == n,
                    before.len() == n,
                    ns == numbers(v.hunks@),
                    forall|i: int|
                        0 <= i < v.hunks@.len() ==> 0 <= (#[trigger] v.hunks@[i]).number() < n,
                    forall|h: int|
                        0 <= h < n ==> place(#[trigger] owners@[h]) == (if ns.take(
                            j as int,
                        ).contains(h) {
                            Some(g as int)
                        } else {
                            place(before[h])
                        }),
            {
                let h = v.hunks[j];
                let ghost was = owners@;
                owners.set(h.index(), Some(g));
                proof {
                    assert forall|x: int| 0 <= x < n implies place(#[trigger] owners@[x]) == (
                    if ns.take(j + 1).contains(x) {
                        Some(g as int)
                    } else {
                        place(before[x])
                    }) by {
                        lemma_set_entries(ns, j as int, x);
                        assert(ns[j as int] == h.number());
                        if x != h.number() {
                            assert(owners@[x] == was[x]);
                        }
                    }
                }
            }
            assert(ns.take(ns.len() as int) =~= ns);
            projected.push(v);
        }

        // Files.
        let mut files: Vec<FileView> = Vec::new();
        for f in 0..doc.files.len()
            invariant
                d == *doc,
                index.document() == d,
                valid(doc),
                files@.len() == f,
                forall|k: int|
                    0 <= k < f ==> is_file_view(#[trigger] files@[k], doc, doc.files@[k]),
        {
            assert(file_ok(doc, doc.files@[f as int]));
            let hunks = index.file_hunks(&doc.files[f]);
            let counts = count_lines(&index, &hunks);
            files.push(FileView { path: doc.files[f].path.clone(), hunks, counts });
        }
        let mut digests: Vec<String> = Vec::new();
        for i in 0..n
            invariant
                n == doc.hunks@.len(),
                digests@.len() == i,
                forall|k: int| 0 <= k < i ==> (#[trigger] digests@[k])@ == doc.hunks@[k].digest@,
        {
            digests.push(doc.hunks[i].digest.clone());
        }
        proof {
            assert(texts(digests@) =~= all_digests(doc));
            assert(pair_names(class_keys@) =~= class_names(doc.classes@));
        }
        let view = ReviewView {
            groups: projected,
            files,
            group_of: owners,
            digests,
            class_keys,
            hunk_keys,
        };
        proof {
            assert forall|id: Seq<char>| #[trigger] view.class_mark(id) == (if class_names(
                doc.classes@,
            ).contains(id) {
                Some(key_of_class(doc, id))
            } else {
                None
            }) by {
                lemma_last_pos(class_names(doc.classes@), id);
            }
        }
        Ok(view)
    }

    /// The place of a group by id.
    pub fn group_position(&self, id: &str) -> (r: Option<usize>)
        ensures
            r matches Some(i) ==> i < self.groups@.len() && self.groups@[i as int].id@ == id@
                && forall|k: int| 0 <= k < i ==> (#[trigger] self.groups@[k]).id@ != id@,
            r is None ==> forall|k: int|
                0 <= k < self.groups@.len() ==> (#[trigger] self.groups@[k]).id@ != id@,
    {
        for i in 0..self.groups.len()
            invariant
                forall|k: int| 0 <= k < i ==> (#[trigger] self.groups@[k]).id@ != id@,
        {
            if str_eq(&self.groups[i].id, id) {
                return Some(i);
            }
        }
        None
    }

    /// A group by id.
    pub fn group_by_id(&self, id: &str) -> (r: Option<&GroupView>)
        ensures
            r matches Some(g) ==> exists|i: int|
                0 <= i < self.groups@.len() && *g == #[trigger] self.groups@[i] && g.id@ == id@
                    && forall|k: int| 0 <= k < i ==> (#[trigger] self.groups@[k]).id@ != id@,
            r is None ==> forall|k: int|
                0 <= k < self.groups@.len() ==> (#[trigger] self.groups@[k]).id@ != id@,
    {
        match self.group_position(id) {
            Some(i) => Some(&self.groups[i]),
            None => None,
        }
    }

    /// The group owning a hunk, via its class. `None` only for a hunk whose class
    /// is in no group.
    pub fn group_of_hunk(&self, hunk: HunkId) -> (r: Option<&GroupView>)
        ensures
            match self.group_place(hunk.number()) {
                Some(i) => if i < self.groups@.len() {
                    r == Some(&self.groups@[i])
                } else {
                    r is None
                },
                None => r is None,
            },
    {
        let h = hunk.index();
        if h < self.group_of.len() {
            if let Some(i) = self.group_of[h] {
                if i < self.groups.len() {
                    return Some(&self.groups[i]);
                }
            }
        }
        None
    }

    /// The hunk with a digest: findings anchor on digests, which survive
    /// regeneration where positional ids do not.
    pub fn hunk_by_digest(&self, digest: &str) -> (r: Option<HunkId>)
        ensures
            match r {
                Some(h) => self.digest_place(digest@) == Some(h.number()),
                None => self.digest_place(digest@) is None,
            },
    {
        let mut i: usize = self.digests.len();
        let ghost names = texts(self.digests@);
        assert(names.take(i as int) =~= names);
        while i > 0
            invariant
                i <= self.digests@.len(),
                names == texts(self.digests@),
                last_pos(names, digest@) == last_pos(names.take(i as int), digest@),
            decreases i,
        {
            assert(names.take(i as int).drop_last() =~= names.take(i - 1));
            if str_eq(&self.digests[i - 1], digest) {
                return Some(HunkId::from_index(i - 1));
            }
            i = i - 1;
        }
        None
    }

    /// The digest of a hunk.
    pub fn digest(&self, hunk: HunkId) -> (r: &str)
        requires
            hunk.number() < self.digests@.len(),
        ensures
            r@ == self.digests@[hunk.number()]@,
    {
        self.digests[hunk.index()].as_str()
    }

    /// The key of a class.
    pub fn class_key(&self, class_id: &str) -> (r: &str)
        requires
            self.class_mark(class_id@) is Some,
        ensures
            self.class_mark(class_id@) == Some(r@),
    {
        let mut i: usize = self.class_keys.len();
        let ghost names = pair_names(self.class_keys@);
        assert(names.take(i as int) =~= names);
        while i > 0
            invariant
                i <= self.class_keys@.len(),
                names == pair_names(self.class_keys@),
                last_pos(names, class_id@) == last_pos(names.take(i as int), class_id@),
            decreases i,
        {
            assert(names.take(i as int).drop_last() =~= names.take(i - 1));
            if str_eq(&self.class_keys[i - 1].0, class_id) {
                return self.class_keys[i - 1].1.as_str();
            }
            i = i - 1;
        }
        assert(false);
        ""
    }

    /// The key of a hunk.
    pub fn hunk_key(&self, hunk: HunkId) -> (r: &str)
        requires
            self.hunk_mark(hunk.number()) is Some,
        ensures
            self.hunk_mark(hunk.number()) == Some(r@),
    {
        match &self.hunk_keys[hunk.index()] {
            Some(s) => s.as_str(),
            None => {
                assert(false);
                ""
            },
        }
    }

    /// Whether a test of keys gives an answer for a hunk.
    pub open spec fn answers<F: Fn(&str) -> bool>(&self, reviewed: F, h: int, yes: bool) -> bool {
        exists|s: &str|
            self.hunk_mark(h) == Some(s@) && #[trigger] call_ensures(reviewed, (s,), yes)
    }

    /// Hunks whose class is marked reviewed, in order.
    pub fn hunks_with_keys<F: Fn(&str) -> bool>(&self, reviewed: F) -> (r: Vec<HunkId>)
        requires
            forall|s: &str| #[trigger] call_requires(reviewed, (s,)),
        ensures
            forall|i: int|
                0 <= i < r@.len() ==> self.answers(reviewed, (#[trigger] r@[i]).number(), true),
            forall|h: int|
                #[trigger] self.hunk_mark(h) is Some && !numbers(r@).contains(h) ==> self.answers(
                    reviewed,
                    h,
                    false,
                ),
            forall|i: int, j: int|
                0 <= i < j < r@.len() ==> (#[trigger] r@[i]).number() < (
                #[trigger] r@[j]).number(),
    {
        let mut out: Vec<HunkId> = Vec::new();
        for i in 0..self.hunk_keys.len()
            invariant
                forall|s: &str| #[trigger] call_requires(reviewed, (s,)),
                forall|k: int|
                    0 <= k < out@.len() ==> (#[trigger] out@[k]).number() < i && self.answers(
                        reviewed,
                        out@[k].number(),
                        true,
                    ),
                forall|h: int|
                    0 <= h < i && #[trigger] self.hunk_mark(h) is Some && !numbers(out@).contains(h)
                        ==> self.answers(reviewed, h, false),
                forall|a: int, b: int|
                    0 <= a < b < out@.len() ==> (#[trigger] out@[a]).number() < (
                    #[trigger] out@[b]).number(),
        {
            let ghost was = out@;
            if let Some(key) = &self.hunk_keys[i] {
                let s: &str = key.as_str();
                let yes = reviewed(s);
                assert(self.hunk_mark(i as int) == Some(s@));
                assert(self.answers(reviewed, i as int, yes));
                if yes {
                    let h = HunkId::from_index(i);
                    out.push(h);
                    proof {
                        assert(numbers(out@)[was.len() as int] == i);
                        assert forall|x: int| numbers(was).contains(x) implies #[trigger] numbers(
                            out@,
                        ).contains(x) by {
                            let k = choose|k: int|
                                0 <= k < numbers(was).len() && numbers(was)[k] == x;
                            assert(numbers(out@)[k] == x);
                        }
                    }
                }
            } else {
                assert(self.hunk_mark(i as int) is None);
            }
        }
        out
    }

    /// The tier's domain name, or `unclassified` for the audit back-fill.
    pub fn tier_name(&self, group: &GroupView) -> (r: &'static str)
        ensures
            r@ == (if group.unclassified {
                "unclassified"@
            } else {
                effort_text(group.effort)
            }),
    {
        if group.unclassified {
            "unclassified"
        } else {
            effort_name(group.effort)
        }
    }
}

/// The first halves of pairs.
pub open spec fn pair_names(pairs: Seq<(String, String)>) -> Seq<Seq<char>> {
    Seq::new(pairs.len(), |i: int| pairs[i].0@)
}

/// A count that stays at the largest number that can be kept.
pub open spec fn kept_below(n: int) -> int {
    if n <= 0xffff_ffff_ffff_ffff {
        n
    } else {
        0xffff_ffff_ffff_ffff
    }
}

/// The lines that hunks add, one after the other.
pub open spec fn lines_added(doc: &PlanDocument, hs: Seq<HunkId>) -> int {
    hs.fold_left(0int, |n: int, h: HunkId| n + doc.hunks@[h.number()].new_count)
}

/// The lines that hunks delete, one after the other.
pub open spec fn lines_deleted(doc: &PlanDocument, hs: Seq<HunkId>) -> int {
    hs.fold_left(0int, |n: int, h: HunkId| n + doc.hunks@[h.number()].old_count)
}

/// Summing over hunks is summing over their numbers.
proof fn lemma_lines(doc: &PlanDocument, hs: Seq<HunkId>)
    ensures
        adds_of(doc, numbers(hs)) == lines_added(doc, hs),
        dels_of(doc, numbers(hs)) == lines_deleted(doc, hs),
    decreases hs.len(),
{
    if hs.len() > 0 {
        let fewer = hs.drop_last();
        lemma_lines(doc, fewer);
        assert(numbers(hs).drop_last() =~= numbers(fewer));
        assert(numbers(hs).last() == hs.last().number());
    }
}

/// A hunk of a group is one that one of its classes names.
proof fn lemma_group_has(doc: &PlanDocument, g: Group, h: int)
    requires
        valid(doc),
        group_ok(doc, g),
        0 <= h,
    ensures
        group_numbers(doc, texts(g.class_ids@)).contains(h) <==> group_has(doc, g, h),
{
    let ids = texts(g.class_ids@);
    lemma_listed(doc, ids, h);
    assert forall|k: int| 0 <= k < ids.len() implies ({
        let c = last_pos(class_names(doc.classes@), #[trigger] ids[k])->0;
        &&& is_named(doc, ids[k], c)
        &&& forall|d: int| #[trigger] is_named(doc, ids[k], d) ==> d == c
        &&& class_numbers(doc, ids[k]).contains(h) <==> has_hunk(doc, c, h)
    }) by {
        assert(ids[k] == g.class_ids@[k]@);
        lemma_named(doc, ids[k], h);
    }
    if group_numbers(doc, ids).contains(h) {
        let k = choose|k: int|
            0 <= k < ids.len() && class_numbers(doc, #[trigger] ids[k]).contains(h);
        let c = last_pos(class_names(doc.classes@), ids[k])->0;
        assert(is_named(doc, g.class_ids@[k]@, c));
    }
    if group_has(doc, g, h) {
        let (k, c) = choose|k: int, c: int|
            0 <= k < g.class_ids@.len() && #[trigger] is_named(doc, g.class_ids@[k]@, c)
                && has_hunk(doc, c, h);
        assert(is_named(doc, ids[k], c));
    }
}

/// A group is projected with the hunks of its classes, the lines that they add and
/// delete, and the number of files that they lie in. It is the one of the omitted classes
/// exactly where it is the last one and some were omitted.
pub proof fn law_a_projected_group_counts_its_hunks(
    doc: &PlanDocument,
    view: ReviewView,
    groups: Seq<Group>,
    g: int,
    h: int,
)
    requires
        call_ensures(ReviewView::project, (doc,), Ok(view)),
        doc.groups matches Some(gs) && gs@ == groups,
        0 <= g < groups.len(),
        0 <= h < doc.hunks@.len(),
    ensures
        view.groups@.len() == groups.len(),
        view.groups@[g].id@ == groups[g].id@,
        view.groups@[g].label@ == groups[g].label@,
        view.groups@[g].effort == groups[g].effort,
        view.groups@[g].role == groups[g].role,
        numbers(view.groups@[g].hunks@).contains(h) <==> group_has(doc, groups[g], h),
        view.groups@[g].counts.adds == kept_below(lines_added(doc, view.groups@[g].hunks@)),
        view.groups@[g].counts.dels == kept_below(lines_deleted(doc, view.groups@[g].hunks@)),
        view.groups@[g].n_files == Set::new(
            |path: Seq<char>|
                exists|i: int|
                    0 <= i < view.groups@[g].hunks@.len() && doc.hunks@[(
                    #[trigger] view.groups@[g].hunks@[i]).number()].file@ == path,
        ).len(),
        view.groups@[g].unclassified <==> g == groups.len() - 1 && (doc.audit.classes_missing
            matches Some(n) && n != 0),
{
    let v = view.groups@[g];
    let ids = texts(groups[g].class_ids@);
    let hs = group_numbers(doc, ids);
    assert(is_group_view(v, doc, g));
    assert(group_ok(doc, groups_of(doc)[g]));
    lemma_group_has(doc, groups[g], h);
    lemma_lines(doc, v.hunks@);
    let paths = Set::new(
        |path: Seq<char>|
            exists|i: int|
                0 <= i < v.hunks@.len() && doc.hunks@[(#[trigger] v.hunks@[i]).number()].file@
                    == path,
    );
    let all = touched(doc, hs);
    assert forall|path: Seq<char>| all.to_set().contains(path) <==> paths.contains(path) by {
        if all.to_set().contains(path) {
            let i = choose|i: int| 0 <= i < all.len() && all[i] == path;
            assert(numbers(v.hunks@)[i] == v.hunks@[i].number());
        }
        if paths.contains(path) {
            let i = choose|i: int|
                0 <= i < v.hunks@.len() && doc.hunks@[(#[trigger] v.hunks@[i]).number()].file@
                    == path;
            assert(numbers(v.hunks@)[i] == v.hunks@[i].number());
            assert(all[i] == path);
        }
    }
    assert(all.to_set() =~= paths);
}

/// A hunk belongs to the last group that names a class with it, and to none where no
/// group does.
pub proof fn law_a_hunk_belongs_to_a_group_that_has_it(
    doc: &PlanDocument,
    view: ReviewView,
    groups: Seq<Group>,
    h: int,
)
    requires
        call_ensures(ReviewView::project, (doc,), Ok(view)),
        doc.groups matches Some(gs) && gs@ == groups,
        0 <= h < doc.hunks@.len(),
    ensures
        match view.group_place(h) {
            Some(g) => 0 <= g < groups.len() && group_has(doc, groups[g], h) && forall|later: int|
                g < later < groups.len() ==> !group_has(doc, #[trigger] groups[later], h),
            None => forall|g: int|
                0 <= g < groups.len() ==> !group_has(doc, #[trigger] groups[g], h),
        },
{
    assert(valid(doc));
    lemma_group_of(doc, groups.len(), h);
}

/// The group found is the last one that has the hunk.
proof fn lemma_group_of(doc: &PlanDocument, k: nat, h: int)
    requires
        valid(doc),
        k <= groups_of(doc).len(),
        0 <= h,
    ensures
        match group_of(doc, k, h) {
            Some(g) => 0 <= g < k && group_has(doc, groups_of(doc)[g], h) && forall|later: int|
                g < later < k ==> !group_has(doc, #[trigger] groups_of(doc)[later], h),
            None => forall|g: int| 0 <= g < k ==> !group_has(doc, #[trigger] groups_of(doc)[g], h),
        },
    decreases k,
{
    if k > 0 {
        assert(group_ok(doc, groups_of(doc)[k - 1]));
        lemma_group_has(doc, groups_of(doc)[k - 1], h);
        lemma_group_of(doc, (k - 1) as nat, h);
    }
}

/// An edge carries the label of the group that it names, the last one where several have
/// the id, and is unsatisfied exactly where that group comes later in the plan.
pub proof fn law_an_edge_is_unsatisfied_where_it_points_forward(
    doc: &PlanDocument,
    view: ReviewView,
    groups: Seq<Group>,
    g: int,
    i: int,
    to: int,
)
    requires
        call_ensures(ReviewView::project, (doc,), Ok(view)),
        doc.groups matches Some(gs) && gs@ == groups,
        0 <= g < groups.len(),
        0 <= i < groups[g].depends_on@.len(),
        0 <= to < groups.len(),
        groups[to].id@ == groups[g].depends_on@[i]@,
        forall|later: int|
            to < later < groups.len() ==> (#[trigger] groups[later]).id@
                != groups[g].depends_on@[i]@,
    ensures
        view.groups@[g].depends_on@.len() == groups[g].depends_on@.len(),
        view.groups@[g].depends_on@[i].id@ == groups[to].id@,
        view.groups@[g].depends_on@[i].label@ == groups[to].label@,
        view.groups@[g].depends_on@[i].unsatisfied <==> to > g,
{
    let id = groups[g].depends_on@[i]@;
    let names = group_names(groups);
    assert(is_group_view(view.groups@[g], doc, g));
    assert(is_edge(view.groups@[g].depends_on@[i], doc, id, g));
    lemma_last_pos(names, id);
    lemma_last_is_last(names, id);
    assert(names[to] == id);
    let p = last_pos(names, id)->0;
    assert(names[p] == groups[p].id@);
}

/// The key of a hunk is that of the last class that lists it, and there is none where no
/// class does.
pub proof fn law_a_hunk_has_the_key_of_its_class(
    doc: &PlanDocument,
    view: ReviewView,
    h: int,
)
    requires
        call_ensures(ReviewView::project, (doc,), Ok(view)),
        0 <= h < doc.hunks@.len(),
        class_names(doc.classes@).no_duplicates(),
    ensures
        view.hunk_mark(h) is None <==> forall|c: int|
            0 <= c < doc.classes@.len() ==> !#[trigger] has_hunk(doc, c, h),
        forall|c: int|
            0 <= c < doc.classes@.len() && #[trigger] has_hunk(doc, c, h) && (forall|later: int|
                c < later < doc.classes@.len() ==> !#[trigger] has_hunk(doc, later, h))
                ==> view.hunk_mark(h) == view.class_mark(doc.classes@[c].id@),
{
    assert(valid(doc));
    lemma_key_of(doc, doc.classes@.len(), h);
    assert forall|c: int|
        0 <= c < doc.classes@.len() && #[trigger] has_hunk(doc, c, h) && (forall|later: int|
            c < later < doc.classes@.len() ==> !#[trigger] has_hunk(doc, later, h)) implies view.hunk_mark(
        h,
    ) == view.class_mark(doc.classes@[c].id@) by {
        assert(class_names(doc.classes@)[c] == doc.classes@[c].id@);
    }
}

/// The key found is that of the last class with the hunk.
proof fn lemma_key_of(doc: &PlanDocument, k: nat, h: int)
    requires
        valid(doc),
        k <= doc.classes@.len(),
        0 <= h,
        class_names(doc.classes@).no_duplicates(),
    ensures
        key_of_hunk(doc, k, h) is None <==> forall|c: int|
            0 <= c < k ==> !#[trigger] has_hunk(doc, c, h),
        forall|c: int|
            0 <= c < k && #[trigger] has_hunk(doc, c, h) && (forall|later: int|
                c < later < k ==> !#[trigger] has_hunk(doc, later, h)) ==> key_of_hunk(doc, k, h)
                == Some(key_of_class(doc, doc.classes@[c].id@)),
    decreases k,
{
    if k > 0 {
        let names = class_names(doc.classes@);
        let id = doc.classes@[k - 1].id@;
        assert(names[k - 1] == id);
        lemma_named(doc, id, h);
        lemma_last_pos(names, id);
        lemma_key_of(doc, (k - 1) as nat, h);
        if !has_hunk(doc, k - 1, h) {
            assert forall|c: int|
                0 <= c < k && #[trigger] has_hunk(doc, c, h) && (forall|later: int|
                    c < later < k ==> !#[trigger] has_hunk(doc, later, h)) implies key_of_hunk(
                doc,
                k,
                h,
            ) == Some(key_of_class(doc, doc.classes@[c].id@)) by {
                assert(c < k - 1);
                assert(forall|later: int|
                    c < later < k - 1 ==> !#[trigger] has_hunk(doc, later, h));
            }
        }
    }
}

} // verus!
