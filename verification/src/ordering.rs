//! The ordering stage: foundation-first arrangement of the focus section.
//!
//! Symbol-definition to symbol-use is a good ordering signal: ordering needs only
//! a partial order, and a wrong edge misorders, it can never hide content.
//!
//! Deterministic and model-free: runs unconditionally after grouping.
use vstd::prelude::*;

use crate::lang::{row_at, FileSymbols};
use crate::model::{DiffView, Hunk};
use crate::schema::{
    class_names, find_class, find_hunk, group_views, hunk_names, last_pos, lemma_last_pos, step_views,
    ClassEntry, Effort, Group, GroupContent, HunkEntry, PlanDocument, ReadingStep, Role, StepContent,
};
use crate::seqs::{
    bytes_eq, chars_lt, copy_bytes, lemma_lt_is_order, lemma_push_contains, lemma_sorted_multiset,
    sort_texts, sorted_by, texts, views,
};
use crate::text::{contains_text, copy_texts, str_eq};

verus! {

// ---------------------------------------------------------------------------
// Topological order

/// Whether a list of numbers holds `x`.
pub open spec fn lists(s: Seq<usize>, x: int) -> bool {
    exists|i: int| 0 <= i < s.len() && #[trigger] s[i] == x
}

/// Whether everything that `g` depends on has been emitted, as far as it lies in
/// the prefix.
pub open spec fn ready(len: int, deps: Seq<Seq<usize>>, emitted: Seq<usize>, g: int) -> bool {
    forall|i: int|
        0 <= i < deps[g].len() ==> (#[trigger] deps[g][i]) >= len || lists(
            emitted,
            deps[g][i] as int,
        )
}

/// Whether `g` is still to be emitted.
pub open spec fn pending(len: int, emitted: Seq<usize>, g: int) -> bool {
    0 <= g < len && !lists(emitted, g)
}

/// Whether some pending node is ready.
pub open spec fn some_ready(len: int, deps: Seq<Seq<usize>>, emitted: Seq<usize>) -> bool {
    exists|g: int| #[trigger] pending(len, emitted, g) && ready(len, deps, emitted, g)
}

/// Whether `g` may be chosen next: it is ready or, in a cycle, nothing is.
pub open spec fn eligible(len: int, deps: Seq<Seq<usize>>, emitted: Seq<usize>, g: int) -> bool {
    pending(len, emitted, g) && (ready(len, deps, emitted, g) || !some_ready(len, deps, emitted))
}

/// Whether `g` is chosen over `h`: more hunks, or as many and an earlier place.
pub open spec fn preferred(counts: Seq<usize>, g: int, h: int) -> bool {
    counts[g] > counts[h] || (counts[g] == counts[h] && g <= h)
}

/// Whether `g` is the one that comes next.
pub open spec fn comes_next(
    len: int,
    deps: Seq<Seq<usize>>,
    counts: Seq<usize>,
    emitted: Seq<usize>,
    g: int,
) -> bool {
    &&& eligible(len, deps, emitted, g)
    &&& forall|h: int| #[trigger] eligible(len, deps, emitted, h) ==> preferred(counts, g, h)
}

/// Whether `out` is the foundation-first order of `0..len`: each step emits the
/// one that comes next, until nothing is left.
pub open spec fn is_foundation_first(
    len: int,
    deps: Seq<Seq<usize>>,
    counts: Seq<usize>,
    out: Seq<usize>,
) -> bool {
    &&& out.len() == len
    &&& forall|k: int|
        0 <= k < len ==> comes_next(len, deps, counts, out.take(k), #[trigger] out[k] as int)
}

/// The lists that a vector of lists holds.
pub open spec fn rows(v: Seq<Vec<usize>>) -> Seq<Seq<usize>> {
    v.map_values(|r: Vec<usize>| r@)
}

fn lists_number(s: &Vec<usize>, x: usize) -> (r: bool)
    ensures
        r == lists(s@, x as int),
{
    for i in 0..s.len()
        invariant
            forall|j: int| 0 <= j < i ==> s@[j] != x,
    {
        if s[i] == x {
            return true;
        }
    }
    false
}

fn is_ready(len: usize, deps: &Vec<Vec<usize>>, emitted: &Vec<usize>, g: usize) -> (r: bool)
    requires
        g < deps@.len(),
    ensures
        r == ready(len as int, rows(deps@), emitted@, g as int),
{
    let mine = &deps[g];
    for i in 0..mine.len()
        invariant
            g < deps@.len(),
            *mine == deps@[g as int],
            forall|j: int|
                0 <= j < i ==> (#[trigger] rows(deps@)[g as int][j]) >= len || lists(
                    emitted@,
                    rows(deps@)[g as int][j] as int,
                ),
    {
        let d = mine[i];
        if !(d >= len || lists_number(emitted, d)) {
            assert(!(rows(deps@)[g as int][i as int] >= len || lists(
                emitted@,
                rows(deps@)[g as int][i as int] as int,
            )));
            return false;
        }
    }
    true
}

/// Kahn's algorithm over a prefix. Of the ready nodes the one with most hunks is
/// next, then the earliest. In a cycle the largest remaining node is emitted: the
/// recorded dependencies still carry the true edges.
pub fn toposort_prefix(len: usize, deps: &Vec<Vec<usize>>, hunk_count: &Vec<usize>) -> (out: Vec<
    usize,
>)
    requires
        len <= deps@.len(),
        len <= hunk_count@.len(),
    ensures
        is_foundation_first(len as int, rows(deps@), hunk_count@, out@),
        forall|g: int| 0 <= g < len ==> lists(out@, g),
        forall|i: int| 0 <= i < out@.len() ==> (#[trigger] out@[i]) < len,
        forall|i: int, j: int| 0 <= i < j < out@.len() ==> out@[i] != out@[j],
{
    let mut out: Vec<usize> = Vec::new();
    for k in 0..len
        invariant
            len <= deps@.len(),
            len <= hunk_count@.len(),
            out@.len() == k,
            forall|i: int| 0 <= i < k ==> (#[trigger] out@[i]) < len,
            forall|i: int, j: int| 0 <= i < j < k ==> out@[i] != out@[j],
            forall|i: int|
                0 <= i < k ==> comes_next(
                    len as int,
                    rows(deps@),
                    hunk_count@,
                    out@.take(i),
                    #[trigger] out@[i] as int,
                ),
    {
        let mut any = false;
        for g in 0..len
            invariant
                len <= deps@.len(),
                any == (exists|h: int|
                    0 <= h < g && #[trigger] pending(len as int, out@, h) && ready(
                        len as int,
                        rows(deps@),
                        out@,
                        h,
                    )),
        {
            if !lists_number(&out, g) && is_ready(len, deps, &out, g) {
                assert(pending(len as int, out@, g as int));
                any = true;
            }
        }
        assert(any == some_ready(len as int, rows(deps@), out@)) by {
            if some_ready(len as int, rows(deps@), out@) {
                let h = choose|h: int| #[trigger]
                    pending(len as int, out@, h) && ready(len as int, rows(deps@), out@, h);
                assert(0 <= h < len);
            }
        }
        proof {
            lemma_pending_exists(len as int, out@);
        }
        let mut best: Option<usize> = None;
        for g in 0..len
            invariant
                len <= deps@.len(),
                len <= hunk_count@.len(),
                any == some_ready(len as int, rows(deps@), out@),
                match best {
                    Some(b) => b < g && eligible(len as int, rows(deps@), out@, b as int) && forall|h: int|
                        0 <= h < g && #[trigger] eligible(len as int, rows(deps@), out@, h) ==> preferred(
                            hunk_count@,
                            b as int,
                            h,
                        ),
                    None => forall|h: int|
                        0 <= h < g ==> !#[trigger] eligible(len as int, rows(deps@), out@, h),
                },
        {
            if !lists_number(&out, g) && (!any || is_ready(len, deps, &out, g)) {
                assert(eligible(len as int, rows(deps@), out@, g as int));
                match best {
                    Some(b) => {
                        if hunk_count[g] > hunk_count[b] {
                            best = Some(g);
                        }
                    },
                    None => {
                        best = Some(g);
                    },
                }
            } else {
                assert(!eligible(len as int, rows(deps@), out@, g as int));
            }
        }
        proof {
            // Something is pending, so something is eligible.
            let p = choose|p: int| pending(len as int, out@, p);
            if any {
                let h = choose|h: int| #[trigger]
                    pending(len as int, out@, h) && ready(len as int, rows(deps@), out@, h);
                assert(eligible(len as int, rows(deps@), out@, h));
            } else {
                assert(eligible(len as int, rows(deps@), out@, p));
            }
            assert(best is Some);
        }
        let chosen: usize = match best {
            Some(b) => b,
            None => 0,
        };
        let ghost was = out@;
        assert(comes_next(len as int, rows(deps@), hunk_count@, was, chosen as int));
        out.push(chosen);
        proof {
            assert(out@.take(k as int) =~= was);
            assert forall|i: int| 0 <= i < k + 1 implies comes_next(
                len as int,
                rows(deps@),
                hunk_count@,
                out@.take(i),
                #[trigger] out@[i] as int,
            ) by {
                if i < k {
                    assert(out@.take(i) =~= was.take(i));
                    assert(was[i] == out@[i]);
                }
            }
            assert forall|i: int, j: int| 0 <= i < j < k + 1 implies out@[i] != out@[j] by {
                if j == k {
                    assert(was[i] == out@[i]);
                    assert(!lists(was, chosen as int));
                }
            }
        }
    }
    proof {
        assert forall|g: int| 0 <= g < len implies lists(out@, g) by {
            lemma_distinct_fill(len as int, out@, g);
        }
    }
    out
}

/// Fewer than `len` distinct numbers leave one of `0..len` out.
proof fn lemma_pending_exists(len: int, emitted: Seq<usize>)
    requires
        emitted.len() < len,
    ensures
        exists|g: int| pending(len, emitted, g),
{
    if !(exists|g: int| pending(len, emitted, g)) {
        let all = Set::new(|i: int| 0 <= i < len);
        vstd::set_lib::lemma_int_range(0, len);
        assert(all =~= vstd::set_lib::set_int_range(0, len));
        let ints = emitted.map_values(|x: usize| x as int);
        ints.lemma_cardinality_of_set();
        assert(all.subset_of(ints.to_set())) by {
            assert forall|g: int| all.contains(g) implies ints.to_set().contains(g) by {
                assert(!pending(len, emitted, g));
                let i = choose|i: int| 0 <= i < emitted.len() && emitted[i] == g;
                assert(ints[i] == g);
            }
        }
        vstd::set_lib::lemma_len_subset(all, ints.to_set());
    }
}

/// `len` distinct numbers below `len` leave none out.
proof fn lemma_distinct_fill(len: int, out: Seq<usize>, g: int)
    requires
        out.len() == len,
        0 <= g < len,
        forall|i: int| 0 <= i < out.len() ==> (#[trigger] out[i]) < len,
        forall|i: int, j: int| 0 <= i < j < out.len() ==> out[i] != out[j],
    ensures
        lists(out, g),
{
    let ints = out.map_values(|x: usize| x as int);
    assert(ints.no_duplicates());
    ints.unique_seq_to_set();
    let all = vstd::set_lib::set_int_range(0, len);
    vstd::set_lib::lemma_int_range(0, len);
    let less = all.remove(g);
    if !lists(out, g) {
        assert(ints.to_set().subset_of(less)) by {
            assert forall|x: int| ints.to_set().contains(x) implies less.contains(x) by {
                let i = choose|i: int| 0 <= i < ints.len() && ints[i] == x;
                assert(out[i] == x);
                assert(out[i] < len);
            }
        }
        vstd::set_lib::lemma_len_subset(ints.to_set(), less);
    }
}

/// Where the dependencies of a prefix form no cycle, every group comes after all
/// that it depends on.
pub proof fn law_dependencies_come_first(
    len: int,
    deps: Seq<Seq<usize>>,
    counts: Seq<usize>,
    out: Seq<usize>,
    level: spec_fn(int) -> nat,
)
    requires
        0 <= len <= deps.len(),
        is_foundation_first(len, deps, counts, out),
        forall|g: int, i: int|
            0 <= g < len && 0 <= i < deps[g].len() && (#[trigger] deps[g][i]) < len ==> level(
                deps[g][i] as int,
            ) < level(g),
    ensures
        forall|k: int, i: int|
            0 <= k < len && 0 <= i < deps[out[k] as int].len() && (
            #[trigger] deps[out[k] as int][i]) < len ==> lists(
                out.take(k),
                deps[out[k] as int][i] as int,
            ),
{
    assert forall|k: int, i: int|
        0 <= k < len && 0 <= i < deps[out[k] as int].len() && (
        #[trigger] deps[out[k] as int][i]) < len implies lists(
        out.take(k),
        deps[out[k] as int][i] as int,
    ) by {
        let emitted = out.take(k);
        assert(comes_next(len, deps, counts, emitted, out[k] as int));
        lemma_some_ready(len, deps, emitted, out[k] as int, level);
        assert(ready(len, deps, emitted, out[k] as int));
    }
}

/// Without cycles, something pending is ready.
proof fn lemma_some_ready(
    len: int,
    deps: Seq<Seq<usize>>,
    emitted: Seq<usize>,
    g: int,
    level: spec_fn(int) -> nat,
)
    requires
        0 <= len <= deps.len(),
        pending(len, emitted, g),
        forall|g: int, i: int|
            0 <= g < len && 0 <= i < deps[g].len() && (#[trigger] deps[g][i]) < len ==> level(
                deps[g][i] as int,
            ) < level(g),
    ensures
        some_ready(len, deps, emitted),
    decreases level(g),
{
    if !ready(len, deps, emitted, g) {
        let i = choose|i: int|
            0 <= i < deps[g].len() && !((#[trigger] deps[g][i]) >= len || lists(
                emitted,
                deps[g][i] as int,
            ));
        assert(pending(len, emitted, deps[g][i] as int));
        lemma_some_ready(len, deps, emitted, deps[g][i] as int, level);
    }
}

/// What comes next is one alone.
proof fn lemma_next_unique(
    len: int,
    deps: Seq<Seq<usize>>,
    counts: Seq<usize>,
    p: Seq<usize>,
    q: Seq<usize>,
    k: int,
)
    requires
        is_foundation_first(len, deps, counts, p),
        is_foundation_first(len, deps, counts, q),
        0 <= k <= len,
    ensures
        p.take(k) == q.take(k),
    decreases k,
{
    if k == 0 {
        assert(p.take(0) =~= q.take(0));
    } else {
        lemma_next_unique(len, deps, counts, p, q, k - 1);
        let e = p.take(k - 1);
        assert(comes_next(len, deps, counts, e, p[k - 1] as int));
        assert(comes_next(len, deps, counts, e, q[k - 1] as int));
        assert(eligible(len, deps, e, p[k - 1] as int));
        assert(eligible(len, deps, e, q[k - 1] as int));
        assert(p.take(k) =~= e.push(p[k - 1]));
        assert(q.take(k) =~= e.push(q[k - 1]));
    }
}

/// The foundation-first order.
pub open spec fn foundation_first(
    len: int,
    deps: Seq<Seq<usize>>,
    counts: Seq<usize>,
) -> Seq<usize> {
    choose|out: Seq<usize>| is_foundation_first(len, deps, counts, out)
}

/// There is one foundation-first order.
proof fn lemma_foundation_first(
    len: int,
    deps: Seq<Seq<usize>>,
    counts: Seq<usize>,
    out: Seq<usize>,
)
    requires
        is_foundation_first(len, deps, counts, out),
    ensures
        out == foundation_first(len, deps, counts),
{
    let q = foundation_first(len, deps, counts);
    lemma_next_unique(len, deps, counts, out, q, len);
    assert(out.take(len) =~= out);
    assert(q.take(len) =~= q);
}

// ---------------------------------------------------------------------------
// Symbols and dependencies

/// What the ordering stage reads: the classes and hunks of the document, the
/// diff, and each file's symbols.
pub struct Tables {
    pub classes: Seq<ClassEntry>,
    pub hunks: Seq<HunkEntry>,
    pub view: DiffView,
    pub symbols: Seq<FileSymbols>,
}

impl Tables {
    /// The class that an id names.
    pub open spec fn class(self, id: Seq<char>) -> ClassEntry {
        self.classes[last_pos(class_names(self.classes), id)->0]
    }

    /// The hunk that an id names.
    pub open spec fn hunk(self, id: Seq<char>) -> Hunk {
        self.view.hunks@[last_pos(hunk_names(self.hunks), id)->0]
    }

    /// The symbols on each line of a hunk's file: what the lines define, or what
    /// they reference.
    pub open spec fn table(self, h: Hunk, def: bool) -> Seq<Vec<Vec<u8>>> {
        let fs = self.symbols[h.file as int];
        if def {
            fs.defines@
        } else {
            fs.references@
        }
    }

    /// Whether a symbol stands on an added line of a hunk.
    pub open spec fn hunk_has(self, h: Hunk, def: bool, sym: Seq<u8>) -> bool {
        exists|i: int|
            0 <= i < h.added@.len() && views(
                #[trigger] row_at(self.table(h, def), h.new_start + i),
            ).contains(sym)
    }

    /// Whether a symbol stands on an added line of a class.
    pub open spec fn class_has(self, c: ClassEntry, def: bool, sym: Seq<u8>) -> bool {
        exists|k: int|
            0 <= k < c.hunk_ids@.len() && self.hunk_has(
                self.hunk((#[trigger] c.hunk_ids@[k])@),
                def,
                sym,
            )
    }

    /// Whether a symbol stands on an added line of a group. Generated content
    /// contributes none.
    pub open spec fn group_has(self, g: Group, def: bool, sym: Seq<u8>) -> bool {
        g.effort != Effort::Noise && exists|j: int|
            0 <= j < g.class_ids@.len() && self.class_has(
                self.class((#[trigger] g.class_ids@[j])@),
                def,
                sym,
            )
    }

    /// Whether a group alone defines a symbol.
    pub open spec fn sole_definer(self, groups: Seq<Group>, d: int, sym: Seq<u8>) -> bool {
        &&& 0 <= d < groups.len()
        &&& self.group_has(groups[d], true, sym)
        &&& forall|e: int|
            0 <= e < groups.len() && e != d ==> !self.group_has(#[trigger] groups[e], true, sym)
    }

    /// Whether group `g` consumes what group `d` alone defines.
    pub open spec fn depends(self, groups: Seq<Group>, g: int, d: int) -> bool {
        d != g && exists|sym: Seq<u8>|
            #[trigger] self.group_has(groups[g], false, sym) && self.sole_definer(groups, d, sym)
    }

    /// The groups below `n` that group `g` depends on.
    pub open spec fn dep_list(self, groups: Seq<Group>, g: int, n: nat) -> Seq<usize>
        decreases n,
    {
        if n == 0 {
            Seq::empty()
        } else if self.depends(groups, g, n - 1) {
            self.dep_list(groups, g, (n - 1) as nat).push((n - 1) as usize)
        } else {
            self.dep_list(groups, g, (n - 1) as nat)
        }
    }

    /// The dependencies of every group.
    pub open spec fn all_deps(self, groups: Seq<Group>) -> Seq<Seq<usize>> {
        Seq::new(groups.len(), |g: int| self.dep_list(groups, g, groups.len()))
    }

    /// The hunks of some classes.
    pub open spec fn weight(self, ids: Seq<Seq<char>>) -> nat
        decreases ids.len(),
    {
        if ids.len() == 0 {
            0
        } else {
            self.weight(ids.drop_last()) + self.class(ids.last()).hunk_ids@.len()
        }
    }

    /// Whether a group's classes and their hunks are all there.
    pub open spec fn resolves(self, g: Group) -> bool {
        forall|j: int|
            0 <= j < g.class_ids@.len() ==> self.class_resolves((#[trigger] g.class_ids@[j])@)
    }

    pub open spec fn class_resolves(self, id: Seq<char>) -> bool {
        &&& last_pos(class_names(self.classes), id) is Some
        &&& forall|k: int|
            0 <= k < self.class(id).hunk_ids@.len() ==> self.hunk_resolves(
                (#[trigger] self.class(id).hunk_ids@[k])@,
            )
    }

    pub open spec fn hunk_resolves(self, id: Seq<char>) -> bool {
        last_pos(hunk_names(self.hunks), id) matches Some(i) && 0 <= i < self.view.hunks@.len()
    }

    /// Whether everything that the stage looks up is there.
    pub open spec fn complete(self, groups: Seq<Group>) -> bool {
        &&& self.view.wf()
        &&& self.symbols.len() == self.view.files@.len()
        &&& forall|g: int|
            0 <= g < groups.len() && (#[trigger] groups[g]).effort != Effort::Noise
                ==> self.resolves(groups[g]) && self.weight(texts(groups[g].class_ids@))
                <= usize::MAX
    }
}

/// The number of leading focus groups.
pub open spec fn focus_run(groups: Seq<Group>, from: int) -> int
    decreases groups.len() - from,
{
    if from >= groups.len() || groups[from].effort != Effort::Focus {
        from
    } else {
        focus_run(groups, from + 1)
    }
}

/// The number of groups that are reordered: the leading focus groups, without the
/// back-fill, which is read last.
pub open spec fn prefix_len(groups: Seq<Group>, missing: Option<u32>) -> int {
    let n = focus_run(groups, 0);
    if n == groups.len() && (missing matches Some(m) && m > 0) {
        n - 1
    } else {
        n
    }
}

/// The new order of the groups: the reordered prefix, then the rest in place.
pub open spec fn new_order(t: Tables, groups: Seq<Group>, missing: Option<u32>) -> Seq<usize> {
    let len = prefix_len(groups, missing);
    let counts = Seq::new(len as nat, |g: int| t.weight(texts(groups[g].class_ids@)) as usize);
    foundation_first(len, t.all_deps(groups), counts) + Seq::new(
        (groups.len() - len) as nat,
        |i: int| (len + i) as usize,
    )
}

/// Whether an order lists `0..n` once each and leaves every place from `len` on as
/// it was.
pub open spec fn keeps_every_group(order: Seq<usize>, n: int, len: int) -> bool {
    &&& order.len() == n
    &&& forall|i: int| 0 <= i < n ==> (#[trigger] order[i]) < n
    &&& forall|i: int, j: int| 0 <= i < j < n ==> order[i] != order[j]
    &&& forall|g: int| 0 <= g < n ==> #[trigger] lists(order, g)
    &&& forall|k: int| len <= k < n ==> #[trigger] order[k] == k
}

/// The role of a group: a focus group that others depend on is a foundation, one
/// that depends on others a consumer.
pub open spec fn role_of(t: Tables, groups: Seq<Group>, g: int) -> Option<Role> {
    match groups[g].effort {
        Effort::Noise => groups[g].role,
        Effort::Skim => Some(Role::Mechanical),
        Effort::Focus => if exists|e: int| 0 <= e < groups.len() && #[trigger] t.depends(groups, e, g) {
            Some(Role::Foundation)
        } else if t.dep_list(groups, g, groups.len()).len() > 0 {
            Some(Role::Consumer)
        } else {
            None
        },
    }
}

/// The ids of the groups that a group depends on, in order.
pub open spec fn edge_names(t: Tables, groups: Seq<Group>, g: int) -> Seq<Seq<char>> {
    let deps = t.dep_list(groups, g, groups.len());
    sorted_by(
        Seq::new(deps.len(), |i: int| groups[deps[i] as int].id@),
        |a: Seq<char>, b: Seq<char>| chars_lt(a, b),
    )
}

/// Group `g` at its new place.
pub open spec fn placed(t: Tables, groups: Seq<Group>, g: int, rank: nat) -> GroupContent {
    GroupContent {
        rank: rank as u32,
        role: role_of(t, groups, g),
        depends_on: edge_names(t, groups, g),
        ..groups[g]@
    }
}

/// All groups at their new places.
pub open spec fn ordered_groups(t: Tables, groups: Seq<Group>, missing: Option<u32>) -> Seq<
    GroupContent,
> {
    let order = new_order(t, groups, missing);
    Seq::new(groups.len(), |k: int| placed(t, groups, order[k] as int, k as nat))
}

/// The steps of one group, in order.
pub open spec fn steps_of(steps: Seq<StepContent>, group: Seq<char>) -> Seq<StepContent>
    decreases steps.len(),
{
    if steps.len() == 0 {
        Seq::empty()
    } else if steps.last().group == group {
        steps_of(steps.drop_last(), group).push(steps.last())
    } else {
        steps_of(steps.drop_last(), group)
    }
}

/// The steps regrouped by a list of groups: each group's steps where the group is
/// named first.
pub open spec fn regrouped(names: Seq<Seq<char>>, steps: Seq<StepContent>) -> Seq<StepContent>
    decreases names.len(),
{
    if names.len() == 0 {
        Seq::empty()
    } else if names.drop_last().contains(names.last()) {
        regrouped(names.drop_last(), steps)
    } else {
        regrouped(names.drop_last(), steps) + steps_of(steps, names.last())
    }
}

pub open spec fn content_ids(groups: Seq<GroupContent>) -> Seq<Seq<char>> {
    Seq::new(groups.len(), |i: int| groups[i].id)
}

fn collect_hunk(
    out: &mut Vec<Vec<u8>>,
    h: &Hunk,
    table: &Vec<Vec<Vec<u8>>>,
    Ghost(t): Ghost<Tables>,
    Ghost(def): Ghost<bool>,
)
    requires
        table@ == t.table(*h, def),
    ensures
        forall|sym: Seq<u8>|
            #[trigger] views(final(out)@).contains(sym) <==> views(old(out)@).contains(sym)
                || t.hunk_has(*h, def, sym),
{
    let ghost had = views(out@);
    for i in 0..h.added.len()
        invariant
            table@ == t.table(*h, def),
            forall|sym: Seq<u8>|
                #[trigger] views(out@).contains(sym) <==> had.contains(sym) || (exists|j: int|
                    0 <= j < i && views(
                        #[trigger] row_at(t.table(*h, def), h.new_start + j),
                    ).contains(sym)),
    {
        let ghost before = views(out@);
        let ghost row = views(row_at(table@, h.new_start + i));
        let line: Option<u64> = (h.new_start as u64).checked_add(i as u64);
        match line {
            Some(l) => {
                if l >= 1 && l <= table.len() as u64 {
                    extend_row(out, &table[(l - 1) as usize]);
                    assert(views(out@) == before + row);
                } else {
                    assert(views(out@) =~= before + row);
                }
            },
            None => {
                assert(table.len() <= u64::MAX);
                assert(views(out@) =~= before + row);
            },
        }
        proof {
            assert forall|sym: Seq<u8>| #[trigger] views(out@).contains(sym) <==> had.contains(
                sym,
            ) || (exists|j: int|
                0 <= j < i + 1 && views(
                    #[trigger] row_at(t.table(*h, def), h.new_start + j),
                ).contains(sym)) by {
                lemma_append_contains(before, row, sym);
                if row.contains(sym) {
                    assert(views(row_at(t.table(*h, def), h.new_start + i)).contains(sym));
                }
            }
        }
    }
}

proof fn lemma_append_contains<T>(a: Seq<T>, b: Seq<T>, x: T)
    ensures
        (a + b).contains(x) <==> a.contains(x) || b.contains(x),
{
    let c = a + b;
    if a.contains(x) {
        let k = choose|k: int| 0 <= k < a.len() && a[k] == x;
        assert(c[k] == x);
    }
    if b.contains(x) {
        let k = choose|k: int| 0 <= k < b.len() && b[k] == x;
        assert(c[a.len() + k] == x);
    }
    if c.contains(x) {
        let k = choose|k: int| 0 <= k < c.len() && c[k] == x;
        if k < a.len() {
            assert(a[k] == x);
        } else {
            assert(b[k - a.len()] == x);
        }
    }
}

fn extend_row(out: &mut Vec<Vec<u8>>, row: &Vec<Vec<u8>>)
    ensures
        views(final(out)@) == views(old(out)@) + views(row@),
{
    let ghost had = views(out@);
    for i in 0..row.len()
        invariant
            views(out@) == had + views(row@).take(i as int),
    {
        let ghost before = views(out@);
        out.push(copy_bytes(&row[i]));
        assert(views(out@) =~= before.push(row@[i as int]@));
        assert(views(out@) =~= had + views(row@).take(i + 1));
    }
    assert(views(row@).take(row@.len() as int) =~= views(row@));
}

fn collect_class(
    out: &mut Vec<Vec<u8>>,
    c: &ClassEntry,
    hunks: &Vec<HunkEntry>,
    view: &DiffView,
    symbols: &Vec<FileSymbols>,
    def: bool,
    Ghost(t): Ghost<Tables>,
)
    requires
        t.hunks == hunks@,
        t.view == *view,
        t.symbols == symbols@,
        t.view.wf(),
        t.symbols.len() == t.view.files@.len(),
        forall|k: int| 0 <= k < c.hunk_ids@.len() ==> t.hunk_resolves((#[trigger] c.hunk_ids@[k])@),
    ensures
        forall|sym: Seq<u8>|
            #[trigger] views(final(out)@).contains(sym) <==> views(old(out)@).contains(sym)
                || t.class_has(*c, def, sym),
{
    let ghost had = views(out@);
    for k in 0..c.hunk_ids.len()
        invariant
            t.hunks == hunks@,
            t.view == *view,
            t.symbols == symbols@,
            t.view.wf(),
            t.symbols.len() == t.view.files@.len(),
            forall|k: int|
                0 <= k < c.hunk_ids@.len() ==> t.hunk_resolves((#[trigger] c.hunk_ids@[k])@),
            forall|sym: Seq<u8>|
                #[trigger] views(out@).contains(sym) <==> had.contains(sym) || (exists|j: int|
                    0 <= j < k && t.hunk_has(t.hunk((#[trigger] c.hunk_ids@[j])@), def, sym)),
    {
        assert(t.hunk_resolves(c.hunk_ids@[k as int]@));
        match find_hunk(hunks, &c.hunk_ids[k]) {
            Some(i) => {
                let h = &view.hunks[i];
                assert(*h == t.hunk(c.hunk_ids@[k as int]@));
                let fs = &symbols[h.file];
                let ghost before = views(out@);
                if def {
                    collect_hunk(out, h, &fs.defines, Ghost(t), Ghost(def));
                } else {
                    collect_hunk(out, h, &fs.references, Ghost(t), Ghost(def));
                }
                proof {
                    assert forall|sym: Seq<u8>| #[trigger] views(out@).contains(sym) <==> had.contains(
                        sym,
                    ) || (exists|j: int|
                        0 <= j < k + 1 && t.hunk_has(
                            t.hunk((#[trigger] c.hunk_ids@[j])@),
                            def,
                            sym,
                        )) by {
                        assert(views(out@).contains(sym) <==> before.contains(sym) || t.hunk_has(
                            *h,
                            def,
                            sym,
                        ));
                        if t.hunk_has(*h, def, sym) {
                            assert(t.hunk_has(t.hunk(c.hunk_ids@[k as int]@), def, sym));
                        }
                    }
                }
            },
            None => {
                assert(false);
            },
        }
    }
}

fn collect_group(
    g: &Group,
    classes: &Vec<ClassEntry>,
    hunks: &Vec<HunkEntry>,
    view: &DiffView,
    symbols: &Vec<FileSymbols>,
    def: bool,
    Ghost(t): Ghost<Tables>,
) -> (out: Vec<Vec<u8>>)
    requires
        t.classes == classes@,
        t.hunks == hunks@,
        t.view == *view,
        t.symbols == symbols@,
        t.view.wf(),
        t.symbols.len() == t.view.files@.len(),
        g.effort != Effort::Noise ==> t.resolves(*g),
    ensures
        forall|sym: Seq<u8>|
            #[trigger] views(out@).contains(sym) <==> t.group_has(*g, def, sym),
{
    let mut out: Vec<Vec<u8>> = Vec::new();
    if g.effort == Effort::Noise {
        return out;
    }
    for j in 0..g.class_ids.len()
        invariant
            t.classes == classes@,
            t.hunks == hunks@,
            t.view == *view,
            t.symbols == symbols@,
            t.view.wf(),
            t.symbols.len() == t.view.files@.len(),
            t.resolves(*g),
            forall|sym: Seq<u8>|
                #[trigger] views(out@).contains(sym) <==> (exists|i: int|
                    0 <= i < j && t.class_has(t.class((#[trigger] g.class_ids@[i])@), def, sym)),
    {
        assert(t.class_resolves(g.class_ids@[j as int]@));
        match find_class(classes, &g.class_ids[j]) {
            Some(i) => {
                let c = &classes[i];
                assert(*c == t.class(g.class_ids@[j as int]@));
                let ghost before = views(out@);
                collect_class(&mut out, c, hunks, view, symbols, def, Ghost(t));
                proof {
                    assert forall|sym: Seq<u8>| #[trigger] views(out@).contains(sym) <==> (exists|
                        i: int,
                    |
                        0 <= i < j + 1 && t.class_has(
                            t.class((#[trigger] g.class_ids@[i])@),
                            def,
                            sym,
                        )) by {
                        assert(views(out@).contains(sym) <==> before.contains(sym) || t.class_has(
                            *c,
                            def,
                            sym,
                        ));
                        if t.class_has(*c, def, sym) {
                            assert(t.class_has(t.class(g.class_ids@[j as int]@), def, sym));
                        }
                    }
                }
            },
            None => {
                assert(false);
            },
        }
    }
    out
}

fn holds(list: &Vec<Vec<u8>>, sym: &Vec<u8>) -> (r: bool)
    ensures
        r == views(list@).contains(sym@),
{
    for i in 0..list.len()
        invariant
            forall|j: int| 0 <= j < i ==> views(list@)[j] != sym@,
    {
        if bytes_eq(&list[i], sym) {
            assert(views(list@)[i as int] == sym@);
            return true;
        }
    }
    false
}

/// Whether only group `d` defines a symbol.
fn is_sole(defs: &Vec<Vec<Vec<u8>>>, d: usize, sym: &Vec<u8>) -> (r: bool)
    requires
        d < defs@.len(),
    ensures
        r == (forall|e: int|
            0 <= e < defs@.len() && e != d ==> !views((#[trigger] defs@[e])@).contains(sym@)),
{
    for e in 0..defs.len()
        invariant
            forall|k: int|
                0 <= k < e && k != d ==> !views((#[trigger] defs@[k])@).contains(sym@),
    {
        if e != d && holds(&defs[e], sym) {
            assert(views(defs@[e as int]@).contains(sym@));
            return false;
        }
    }
    true
}

/// Whether group `g` depends on group `d`.
fn is_dependent(
    defs: &Vec<Vec<Vec<u8>>>,
    refs: &Vec<Vec<Vec<u8>>>,
    g: usize,
    d: usize,
    Ghost(t): Ghost<Tables>,
    Ghost(groups): Ghost<Seq<Group>>,
) -> (r: bool)
    requires
        defs@.len() == groups.len(),
        refs@.len() == groups.len(),
        g < groups.len(),
        d < groups.len(),
        forall|i: int, sym: Seq<u8>|
            0 <= i < groups.len() ==> (#[trigger] views(defs@[i]@).contains(sym) <==> t.group_has(
                groups[i],
                true,
                sym,
            )),
        forall|i: int, sym: Seq<u8>|
            0 <= i < groups.len() ==> (#[trigger] views(refs@[i]@).contains(sym) <==> t.group_has(
                groups[i],
                false,
                sym,
            )),
    ensures
        r == t.depends(groups, g as int, d as int),
{
    if g == d {
        return false;
    }
    let list = &refs[g];
    for k in 0..list.len()
        invariant
            g != d,
            *list == refs@[g as int],
            defs@.len() == groups.len(),
            refs@.len() == groups.len(),
            g < groups.len(),
            d < groups.len(),
            forall|i: int, sym: Seq<u8>|
                0 <= i < groups.len() ==> (#[trigger] views(defs@[i]@).contains(sym)
                    <==> t.group_has(groups[i], true, sym)),
            forall|i: int, sym: Seq<u8>|
                0 <= i < groups.len() ==> (#[trigger] views(refs@[i]@).contains(sym)
                    <==> t.group_has(groups[i], false, sym)),
            forall|j: int|
                0 <= j < k ==> !t.sole_definer(groups, d as int, #[trigger] views(list@)[j]),
    {
        let sym = &list[k];
        let mine = holds(&defs[d], sym);
        let sole = is_sole(defs, d, sym);
        proof {
            assert(views(list@)[k as int] == sym@);
            assert(views(refs@[g as int]@).contains(sym@));
            assert(mine == t.group_has(groups[d as int], true, sym@));
            if sole {
                assert forall|e: int| 0 <= e < groups.len() && e != d implies !t.group_has(
                    #[trigger] groups[e],
                    true,
                    sym@,
                ) by {
                    assert(!views(defs@[e]@).contains(sym@));
                }
            } else {
                let e = choose|e: int|
                    0 <= e < defs@.len() && e != d && views((#[trigger] defs@[e])@).contains(sym@);
                assert(t.group_has(groups[e], true, sym@));
            }
        }
        if mine && sole {
            assert(t.group_has(groups[g as int], false, sym@));
            assert(t.sole_definer(groups, d as int, sym@));
            return true;
        }
    }
    proof {
        if t.depends(groups, g as int, d as int) {
            let sym = choose|sym: Seq<u8>| #[trigger]
                t.group_has(groups[g as int], false, sym) && t.sole_definer(
                    groups,
                    d as int,
                    sym,
                );
            assert(views(refs@[g as int]@).contains(sym));
            let j = choose|j: int| 0 <= j < views(list@).len() && views(list@)[j] == sym;
            assert(!t.sole_definer(groups, d as int, views(list@)[j]));
        }
    }
    false
}

/// The dependencies of every group.
fn dependencies(
    groups: &Vec<Group>,
    classes: &Vec<ClassEntry>,
    hunks: &Vec<HunkEntry>,
    view: &DiffView,
    symbols: &Vec<FileSymbols>,
    Ghost(t): Ghost<Tables>,
) -> (deps: Vec<Vec<usize>>)
    requires
        t.classes == classes@,
        t.hunks == hunks@,
        t.view == *view,
        t.symbols == symbols@,
        t.complete(groups@),
    ensures
        rows(deps@) == t.all_deps(groups@),
{
    let mut defs: Vec<Vec<Vec<u8>>> = Vec::new();
    let mut refs: Vec<Vec<Vec<u8>>> = Vec::new();
    for g in 0..groups.len()
        invariant
            t.classes == classes@,
            t.hunks == hunks@,
            t.view == *view,
            t.symbols == symbols@,
            t.complete(groups@),
            defs@.len() == g,
            refs@.len() == g,
            forall|i: int, sym: Seq<u8>|
                0 <= i < g ==> (#[trigger] views(defs@[i]@).contains(sym) <==> t.group_has(
                    groups@[i],
                    true,
                    sym,
                )),
            forall|i: int, sym: Seq<u8>|
                0 <= i < g ==> (#[trigger] views(refs@[i]@).contains(sym) <==> t.group_has(
                    groups@[i],
                    false,
                    sym,
                )),
    {
        let grp = &groups[g];
        assert(groups@[g as int].effort != Effort::Noise ==> t.resolves(groups@[g as int]));
        let d = collect_group(grp, classes, hunks, view, symbols, true, Ghost(t));
        let r = collect_group(grp, classes, hunks, view, symbols, false, Ghost(t));
        defs.push(d);
        refs.push(r);
    }
    let mut deps: Vec<Vec<usize>> = Vec::new();
    for g in 0..groups.len()
        invariant
            defs@.len() == groups@.len(),
            refs@.len() == groups@.len(),
            forall|i: int, sym: Seq<u8>|
                0 <= i < groups@.len() ==> (#[trigger] views(defs@[i]@).contains(sym)
                    <==> t.group_has(groups@[i], true, sym)),
            forall|i: int, sym: Seq<u8>|
                0 <= i < groups@.len() ==> (#[trigger] views(refs@[i]@).contains(sym)
                    <==> t.group_has(groups@[i], false, sym)),
            deps@.len() == g,
            forall|i: int|
                0 <= i < g ==> (#[trigger] deps@[i])@ == t.dep_list(groups@, i, groups@.len()),
    {
        let mut mine: Vec<usize> = Vec::new();
        assert(mine@ =~= t.dep_list(groups@, g as int, 0));
        for d in 0..groups.len()
            invariant
                g < groups@.len(),
                defs@.len() == groups@.len(),
                refs@.len() == groups@.len(),
                forall|i: int, sym: Seq<u8>|
                    0 <= i < groups@.len() ==> (#[trigger] views(defs@[i]@).contains(sym)
                        <==> t.group_has(groups@[i], true, sym)),
                forall|i: int, sym: Seq<u8>|
                    0 <= i < groups@.len() ==> (#[trigger] views(refs@[i]@).contains(sym)
                        <==> t.group_has(groups@[i], false, sym)),
                mine@ == t.dep_list(groups@, g as int, d as nat),
        {
            if is_dependent(&defs, &refs, g, d, Ghost(t), Ghost(groups@)) {
                mine.push(d);
            }
        }
        deps.push(mine);
    }
    assert(rows(deps@) =~= t.all_deps(groups@));
    deps
}

proof fn lemma_weight_grows(t: Tables, ids: Seq<Seq<char>>, i: int)
    requires
        0 <= i <= ids.len(),
    ensures
        t.weight(ids.take(i)) <= t.weight(ids),
    decreases ids.len(),
{
    if i == ids.len() {
        assert(ids.take(i) =~= ids);
    } else {
        lemma_weight_grows(t, ids.drop_last(), i);
        assert(ids.drop_last().take(i) =~= ids.take(i));
    }
}

/// The hunks of a group.
fn weigh(g: &Group, classes: &Vec<ClassEntry>, Ghost(t): Ghost<Tables>) -> (n: usize)
    requires
        t.classes == classes@,
        t.resolves(*g),
        t.weight(texts(g.class_ids@)) <= usize::MAX,
    ensures
        n == t.weight(texts(g.class_ids@)),
{
    let ghost ids = texts(g.class_ids@);
    let mut n: usize = 0;
    for j in 0..g.class_ids.len()
        invariant
            t.classes == classes@,
            t.resolves(*g),
            ids == texts(g.class_ids@),
            t.weight(ids) <= usize::MAX,
            n == t.weight(ids.take(j as int)),
    {
        assert(t.class_resolves(g.class_ids@[j as int]@));
        proof {
            assert(ids.take(j + 1).drop_last() =~= ids.take(j as int));
            lemma_weight_grows(t, ids, j + 1);
        }
        match find_class(classes, &g.class_ids[j]) {
            Some(i) => {
                n = n + classes[i].hunk_ids.len();
            },
            None => {
                assert(false);
            },
        }
    }
    assert(ids.take(ids.len() as int) =~= ids);
    n
}

proof fn lemma_focus_run(groups: Seq<Group>, from: int)
    requires
        0 <= from <= groups.len(),
    ensures
        from <= focus_run(groups, from) <= groups.len(),
        forall|i: int|
            from <= i < focus_run(groups, from) ==> (#[trigger] groups[i]).effort == Effort::Focus,
    decreases groups.len() - from,
{
    if from < groups.len() && groups[from].effort == Effort::Focus {
        lemma_focus_run(groups, from + 1);
    }
}

/// The steps of each group where the group comes.
fn regroup(groups: &Vec<Group>, plan: &Vec<ReadingStep>) -> (r: Vec<ReadingStep>)
    ensures
        step_views(r@) == regrouped(content_ids(group_views(groups@)), step_views(plan@)),
{
    let ghost names = content_ids(group_views(groups@));
    let ghost steps = step_views(plan@);
    let mut seen: Vec<String> = Vec::new();
    let mut out: Vec<ReadingStep> = Vec::new();
    assert(texts(seen@) =~= names.take(0));
    assert(step_views(out@) =~= regrouped(names.take(0), steps));
    for k in 0..groups.len()
        invariant
            names == content_ids(group_views(groups@)),
            steps == step_views(plan@),
            texts(seen@) == names.take(k as int),
            step_views(out@) == regrouped(names.take(k as int), steps),
    {
        let id = &groups[k].id;
        proof {
            assert(names.take(k + 1).drop_last() =~= names.take(k as int));
            assert(names.take(k + 1).last() == id@);
        }
        if !contains_text(&seen, id) {
            let ghost had = step_views(out@);
            assert(had + steps_of(steps.take(0), id@) =~= had);
            for i in 0..plan.len()
                invariant
                    steps == step_views(plan@),
                    step_views(out@) == had + steps_of(steps.take(i as int), id@),
            {
                let s = &plan[i];
                let ghost before = step_views(out@);
                proof {
                    assert(steps.take(i + 1).drop_last() =~= steps.take(i as int));
                    assert(steps.take(i + 1).last() == s@);
                }
                if str_eq(&s.group, id) {
                    out.push(ReadingStep { group: s.group.clone(), action: s.action });
                    assert(step_views(out@) =~= before.push(s@));
                    assert(step_views(out@) =~= had + steps_of(steps.take(i + 1), id@));
                }
            }
            assert(steps.take(steps.len() as int) =~= steps);
        }
        let ghost old_seen = texts(seen@);
        seen.push(id.clone());
        assert(texts(seen@) =~= old_seen.push(id@));
        assert(texts(seen@) =~= names.take(k + 1));
    }
    assert(names.take(names.len() as int) =~= names);
    out
}

/// A reordered prefix and the rest in place list every group once.
proof fn lemma_keeps_every_group(head: Seq<usize>, order: Seq<usize>, len: int, n: int)
    requires
        0 <= len <= n <= usize::MAX,
        head.len() == len,
        forall|g: int| 0 <= g < len ==> lists(head, g),
        forall|i: int| 0 <= i < head.len() ==> (#[trigger] head[i]) < len,
        forall|i: int, j: int| 0 <= i < j < head.len() ==> head[i] != head[j],
        order == head + Seq::new((n - len) as nat, |k: int| (len + k) as usize),
    ensures
        keeps_every_group(order, n, len),
{
    assert forall|i: int| 0 <= i < n implies (#[trigger] order[i]) < n by {
        if i < len {
            assert(order[i] == head[i]);
        }
    }
    assert forall|i: int, j: int| 0 <= i < j < n implies order[i] != order[j] by {
        if j < len {
            assert(head[i] != head[j]);
        } else if i < len {
            assert(head[i] < len);
        }
    }
    assert forall|g: int| 0 <= g < n implies #[trigger] lists(order, g) by {
        if g < len {
            assert(lists(head, g));
            let i = choose|i: int| 0 <= i < head.len() && #[trigger] head[i] == g;
            assert(order[i] == g);
        } else {
            assert(order[g] == g);
        }
    }
}

/// Whether everything that ordering a document looks up is there, and there is a
/// group to carry what the model left out.
pub open spec fn can_order(doc: PlanDocument, view: DiffView, symbols: Seq<FileSymbols>) -> bool {
    doc.groups matches Some(groups) ==> (Tables {
        classes: doc.classes@,
        hunks: doc.hunks@,
        view,
        symbols,
    }).complete(groups@) && (groups@.len() > 0 || doc.audit.classes_missing is None
        || doc.audit.classes_missing == Some(0u32))
}

/// Whether a document is another, ordered foundation-first.
pub open spec fn is_ordered(
    was: PlanDocument,
    view: DiffView,
    symbols: Seq<FileSymbols>,
    now: PlanDocument,
) -> bool {
    &&& was.groups is None ==> now == was
    &&& was.groups matches Some(groups) ==> {
        let t = Tables { classes: was.classes@, hunks: was.hunks@, view, symbols };
        let missing = was.audit.classes_missing;
        let ordered = ordered_groups(t, groups@, missing);
        &&& keeps_every_group(
            new_order(t, groups@, missing),
            groups@.len() as int,
            prefix_len(groups@, missing),
        )
        &&& is_foundation_first(
            prefix_len(groups@, missing),
            t.all_deps(groups@),
            Seq::new(
                prefix_len(groups@, missing) as nat,
                |g: int| t.weight(texts(groups@[g].class_ids@)) as usize,
            ),
            new_order(t, groups@, missing).take(prefix_len(groups@, missing)),
        )
        &&& now.groups matches Some(listed) && group_views(listed@) == ordered
        &&& now.reading_plan is Some <==> was.reading_plan is Some
        &&& was.reading_plan matches Some(plan) ==> (now.reading_plan matches Some(steps)
            && step_views(steps@) == regrouped(content_ids(ordered), step_views(plan@)))
        &&& texts(now.generator.stages@) == texts(was.generator.stages@).push("order"@)
    }
    &&& now.generator.tool == was.generator.tool
    &&& now.generator.version == was.generator.version
    &&& now.schema_version == was.schema_version
    &&& now.source == was.source
    &&& now.stats == was.stats
    &&& now.files == was.files
    &&& now.hunks == was.hunks
    &&& now.classes == was.classes
    &&& now.audit == was.audit
}

/// Reorder the focus section foundation-first, fill `depends_on` and `role`,
/// rewrite `rank`, regroup the reading plan, and append the `order` stage. A
/// document without groups stays as it is.
pub fn apply(doc: &mut PlanDocument, view: &DiffView, symbols: &Vec<FileSymbols>)
    requires
        can_order(*old(doc), *view, symbols@),
    ensures
        is_ordered(*old(doc), *view, symbols@, *final(doc)),
{
    if doc.groups.is_none() {
        return;
    }
    let ghost before = *doc;
    let missing = doc.audit.classes_missing;
    let groups = match doc.groups.take() {
        Some(g) => g,
        None => Vec::new(),
    };
    assert(before.groups == Some(groups));
    let ghost t = Tables {
        classes: doc.classes@,
        hunks: doc.hunks@,
        view: *view,
        symbols: symbols@,
    };
    let ghost n = groups@.len();
    let deps = dependencies(&groups, &doc.classes, &doc.hunks, view, symbols, Ghost(t));

    // The leading focus groups; the back-fill stays last.
    let mut len: usize = 0;
    while len < groups.len() && groups[len].effort == Effort::Focus
        invariant
            len <= groups@.len(),
            focus_run(groups@, 0) == focus_run(groups@, len as int),
        decreases groups@.len() - len,
    {
        len = len + 1;
    }
    proof {
        lemma_focus_run(groups@, 0);
    }
    if len == groups.len() {
        if let Some(m) = missing {
            if m > 0 {
                len = len - 1;
            }
        }
    }
    assert(len == prefix_len(groups@, missing));

    let ghost weights = Seq::new(
        len as nat,
        |g: int| t.weight(texts(groups@[g].class_ids@)) as usize,
    );
    let mut counts: Vec<usize> = Vec::new();
    for g in 0..len
        invariant
            len <= groups@.len(),
            t.classes == doc.classes@,
            t.complete(groups@),
            forall|i: int| 0 <= i < len ==> (#[trigger] groups@[i]).effort == Effort::Focus,
            weights == Seq::new(
                len as nat,
                |g: int| t.weight(texts(groups@[g].class_ids@)) as usize,
            ),
            counts@ == weights.take(g as int),
    {
        assert(groups@[g as int].effort != Effort::Noise);
        counts.push(weigh(&groups[g], &doc.classes, Ghost(t)));
        assert(counts@ =~= weights.take(g + 1));
    }
    assert(counts@ =~= weights);
    assert(deps@.len() == rows(deps@).len());
    let mut order = toposort_prefix(len, &deps, &counts);
    proof {
        lemma_foundation_first(len as int, rows(deps@), counts@, order@);
    }
    let ghost head = order@;
    for i in len..groups.len()
        invariant
            head.len() == len,
            len <= groups@.len(),
            order@ == head + Seq::new((i - len) as nat, |k: int| (len + k) as usize),
    {
        order.push(i);
        assert(order@ =~= head + Seq::new((i + 1 - len) as nat, |k: int| (len + k) as usize));
    }
    proof {
        assert(order@ =~= new_order(t, groups@, missing));
        assert(order@.take(len as int) =~= head);
        lemma_keeps_every_group(head, order@, len as int, n as int);
    }

    let mut reordered: Vec<Group> = Vec::new();
    for rank in 0..order.len()
        invariant
            n == groups@.len(),
            order@.len() == n,
            order@ == new_order(t, groups@, missing),
            keeps_every_group(order@, n as int, len as int),
            rows(deps@) == t.all_deps(groups@),
            deps@.len() == n,
            reordered@.len() == rank,
            forall|k: int|
                0 <= k < rank ==> (#[trigger] reordered@[k])@ == placed(
                    t,
                    groups@,
                    order@[k] as int,
                    k as nat,
                ),
    {
        let gi = order[rank];
        let g = &groups[gi];
        assert(rows(deps@)[gi as int] == deps@[gi as int]@);
        let mine = &deps[gi];
        let role = match g.effort {
            Effort::Noise => g.role,
            Effort::Skim => Some(Role::Mechanical),
            Effort::Focus => if is_depended_on(&deps, gi, Ghost(t), Ghost(groups@)) {
                Some(Role::Foundation)
            } else if mine.len() > 0 {
                Some(Role::Consumer)
            } else {
                None
            },
        };
        let mut edges: Vec<String> = Vec::new();
        let ghost names = Seq::new(mine@.len(), |i: int| groups@[mine@[i] as int].id@);
        proof {
            lemma_dep_list(t, groups@, gi as int, groups@.len());
        }
        for i in 0..mine.len()
            invariant
                names == Seq::new(mine@.len(), |i: int| groups@[mine@[i] as int].id@),
                forall|i: int| 0 <= i < mine@.len() ==> (#[trigger] mine@[i]) < groups@.len(),
                texts(edges@) == names.take(i as int),
        {
            let ghost had = texts(edges@);
            edges.push(groups[mine[i]].id.clone());
            assert(texts(edges@) =~= had.push(names[i as int]));
            assert(texts(edges@) =~= names.take(i + 1));
        }
        assert(texts(edges@) =~= names);
        let made = Group {
            id: g.id.clone(),
            label: g.label.clone(),
            description: g.description.clone(),
            reason: g.reason.clone(),
            effort: g.effort,
            role,
            class_ids: copy_texts(&g.class_ids),
            depends_on: sort_texts(&edges),
            rank: #[verifier::truncate] (rank as u32),
        };
        assert(made@ =~= placed(t, groups@, gi as int, rank as nat));
        reordered.push(made);
    }
    assert(group_views(reordered@) =~= ordered_groups(t, groups@, missing));
    let plan = doc.reading_plan.take();
    match plan {
        Some(steps) => {
            doc.reading_plan = Some(regroup(&reordered, &steps));
        },
        None => {},
    }
    doc.groups = Some(reordered);
    let ghost stages = texts(doc.generator.stages@);
    doc.generator.stages.push("order".to_owned());
    assert(texts(doc.generator.stages@) =~= stages.push("order"@));
}

/// Dependencies are places of groups.
proof fn lemma_dep_list(t: Tables, groups: Seq<Group>, g: int, n: nat)
    requires
        n <= groups.len() <= usize::MAX,
    ensures
        forall|i: int|
            0 <= i < t.dep_list(groups, g, n).len() ==> (#[trigger] t.dep_list(groups, g, n)[i]) < n,
        forall|d: int|
            0 <= d < n ==> (#[trigger] t.depends(groups, g, d) <==> lists(
                t.dep_list(groups, g, n),
                d,
            )),
    decreases n,
{
    if n > 0 {
        lemma_dep_list(t, groups, g, (n - 1) as nat);
        let a = t.dep_list(groups, g, (n - 1) as nat);
        let b = t.dep_list(groups, g, n);
        assert forall|d: int| 0 <= d < n implies (#[trigger] t.depends(groups, g, d) <==> lists(
            b,
            d,
        )) by {
            if d < n - 1 {
                if lists(a, d) {
                    let i = choose|i: int| 0 <= i < a.len() && a[i] == d;
                    assert(b[i] == d);
                }
                if lists(b, d) {
                    let i = choose|i: int| 0 <= i < b.len() && b[i] == d;
                    assert(i < a.len());
                    assert(a[i] == d);
                }
            } else {
                if t.depends(groups, g, d) {
                    assert(b[b.len() - 1] == d);
                } else if lists(b, d) {
                    let i = choose|i: int| 0 <= i < b.len() && b[i] == d;
                    assert(a[i] == d);
                }
            }
        }
    }
}

/// Whether some group depends on group `g`.
fn is_depended_on(
    deps: &Vec<Vec<usize>>,
    g: usize,
    Ghost(t): Ghost<Tables>,
    Ghost(groups): Ghost<Seq<Group>>,
) -> (r: bool)
    requires
        rows(deps@) == t.all_deps(groups),
        deps@.len() == groups.len(),
        g < groups.len(),
    ensures
        r == (exists|e: int| 0 <= e < groups.len() && #[trigger] t.depends(groups, e, g as int)),
{
    for e in 0..deps.len()
        invariant
            rows(deps@) == t.all_deps(groups),
            deps@.len() == groups.len(),
            g < groups.len(),
            forall|k: int| 0 <= k < e ==> !#[trigger] t.depends(groups, k, g as int),
    {
        proof {
            assert(deps.len() == groups.len());
            lemma_dep_list(t, groups, e as int, groups.len());
            assert(rows(deps@)[e as int] == deps@[e as int]@);
        }
        if lists_number(&deps[e], g) {
            assert(t.depends(groups, e as int, g as int));
            return true;
        }
        assert(!t.depends(groups, e as int, g as int));
    }
    false
}

// ---------------------------------------------------------------------------
// What an ordered document says

/// Whether the ids of a document's classes, hunks and groups each occur once.
pub open spec fn ids_are_unique(doc: PlanDocument, groups: Seq<Group>) -> bool {
    &&& forall|i: int, j: int|
        0 <= i < j < doc.classes@.len() ==> (#[trigger] doc.classes@[i]).id@ != (
        #[trigger] doc.classes@[j]).id@
    &&& forall|i: int, j: int|
        0 <= i < j < doc.hunks@.len() ==> (#[trigger] doc.hunks@[i]).id@ != (
        #[trigger] doc.hunks@[j]).id@
    &&& forall|i: int, j: int|
        0 <= i < j < groups.len() ==> (#[trigger] groups[i]).id@ != (#[trigger] groups[j]).id@
}

/// Whether a hunk is in a class of a group.
pub open spec fn carries_hunk(doc: PlanDocument, g: Group, h: int) -> bool {
    exists|c: int|
        0 <= c < doc.classes@.len() && texts(g.class_ids@).contains(
            (#[trigger] doc.classes@[c]).id@,
        ) && texts(doc.classes@[c].hunk_ids@).contains(doc.hunks@[h].id@)
}

/// Whether a table of symbols, one row for each line of the new file, has a symbol on a
/// line that a hunk adds.
pub open spec fn on_added_line(h: Hunk, table: Seq<Vec<Vec<u8>>>, sym: Seq<u8>) -> bool {
    exists|at: int|
        0 <= at < table.len() && h.new_start <= at + 1 < h.new_start + h.added@.len() && views(
            (#[trigger] table[at])@,
        ).contains(sym)
}

/// Whether a group that is read defines a symbol on a line that one of its hunks adds.
pub open spec fn introduces(
    doc: PlanDocument,
    view: DiffView,
    symbols: Seq<FileSymbols>,
    g: Group,
    sym: Seq<u8>,
) -> bool {
    g.effort != Effort::Noise && exists|h: int|
        0 <= h < doc.hunks@.len() && #[trigger] carries_hunk(doc, g, h) && on_added_line(
            view.hunks@[h],
            symbols[view.hunks@[h].file as int].defines@,
            sym,
        )
}

/// Whether a group that is read uses a symbol on a line that one of its hunks adds.
pub open spec fn consumes(
    doc: PlanDocument,
    view: DiffView,
    symbols: Seq<FileSymbols>,
    g: Group,
    sym: Seq<u8>,
) -> bool {
    g.effort != Effort::Noise && exists|h: int|
        0 <= h < doc.hunks@.len() && #[trigger] carries_hunk(doc, g, h) && on_added_line(
            view.hunks@[h],
            symbols[view.hunks@[h].file as int].references@,
            sym,
        )
}

/// Whether one group uses a symbol that another one, and no third, introduces.
pub open spec fn builds_on(
    doc: PlanDocument,
    view: DiffView,
    symbols: Seq<FileSymbols>,
    groups: Seq<Group>,
    g: int,
    d: int,
) -> bool {
    g != d && exists|sym: Seq<u8>|
        {
            &&& #[trigger] consumes(doc, view, symbols, groups[g], sym)
            &&& introduces(doc, view, symbols, groups[d], sym)
            &&& forall|e: int|
                0 <= e < groups.len() && e != d ==> !introduces(
                    doc,
                    view,
                    symbols,
                    #[trigger] groups[e],
                    sym,
                )
        }
}

spec fn tables_of(doc: PlanDocument, view: DiffView, symbols: Seq<FileSymbols>) -> Tables {
    Tables { classes: doc.classes@, hunks: doc.hunks@, view, symbols }
}

proof fn lemma_on_added_line(t: Tables, h: Hunk, def: bool, sym: Seq<u8>)
    ensures
        t.hunk_has(h, def, sym) <==> on_added_line(h, t.table(h, def), sym),
{
    let table = t.table(h, def);
    if t.hunk_has(h, def, sym) {
        let i = choose|i: int|
            0 <= i < h.added@.len() && views(
                #[trigger] row_at(t.table(h, def), h.new_start + i),
            ).contains(sym);
        let at = h.new_start + i - 1;
        if !(1 <= h.new_start + i <= table.len()) {
            assert(views(Seq::<Vec<u8>>::empty()).len() == 0);
        }
        assert(views(table[at]@).contains(sym));
    }
    if on_added_line(h, table, sym) {
        let at = choose|at: int|
            0 <= at < table.len() && h.new_start <= at + 1 < h.new_start + h.added@.len() && views(
                (#[trigger] table[at])@,
            ).contains(sym);
        let i = at + 1 - h.new_start;
        assert(row_at(t.table(h, def), h.new_start + i) == table[at]@);
    }
}

/// Looking up by the last entry of a name finds the only one.
proof fn lemma_group_has(
    doc: PlanDocument,
    view: DiffView,
    symbols: Seq<FileSymbols>,
    groups: Seq<Group>,
    g: Group,
    def: bool,
    sym: Seq<u8>,
)
    requires
        ids_are_unique(doc, groups),
        g.effort != Effort::Noise ==> tables_of(doc, view, symbols).resolves(g),
    ensures
        tables_of(doc, view, symbols).group_has(g, def, sym) <==> (if def {
            introduces(doc, view, symbols, g, sym)
        } else {
            consumes(doc, view, symbols, g, sym)
        }),
{
    let t = tables_of(doc, view, symbols);
    let cn = class_names(t.classes);
    let hn = hunk_names(t.hunks);
    assert(cn.no_duplicates()) by {
        assert forall|i: int, j: int| 0 <= i < cn.len() && 0 <= j < cn.len() && i != j implies cn[i]
            != cn[j] by {
            if i < j {
                assert(doc.classes@[i].id@ != doc.classes@[j].id@);
            } else {
                assert(doc.classes@[j].id@ != doc.classes@[i].id@);
            }
        }
    }
    assert(hn.no_duplicates()) by {
        assert forall|i: int, j: int| 0 <= i < hn.len() && 0 <= j < hn.len() && i != j implies hn[i]
            != hn[j] by {
            if i < j {
                assert(doc.hunks@[i].id@ != doc.hunks@[j].id@);
            } else {
                assert(doc.hunks@[j].id@ != doc.hunks@[i].id@);
            }
        }
    }
    if t.group_has(g, def, sym) {
        let j = choose|j: int|
            0 <= j < g.class_ids@.len() && t.class_has(
                t.class((#[trigger] g.class_ids@[j])@),
                def,
                sym,
            );
        let cid = g.class_ids@[j]@;
        assert(t.class_resolves(cid));
        lemma_last_pos(cn, cid);
        let c = last_pos(cn, cid)->0;
        let class = t.class(cid);
        assert(doc.classes@[c].id@ == cn[c]);
        let k = choose|k: int|
            0 <= k < class.hunk_ids@.len() && t.hunk_has(
                t.hunk((#[trigger] class.hunk_ids@[k])@),
                def,
                sym,
            );
        let hid = class.hunk_ids@[k]@;
        assert(t.hunk_resolves(hid));
        lemma_last_pos(hn, hid);
        let h = last_pos(hn, hid)->0;
        assert(doc.hunks@[h].id@ == hn[h]);
        lemma_on_added_line(t, view.hunks@[h], def, sym);
        assert(texts(g.class_ids@)[j] == doc.classes@[c].id@);
        assert(texts(doc.classes@[c].hunk_ids@)[k] == doc.hunks@[h].id@);
        assert(carries_hunk(doc, g, h));
    }
    let other = if def {
        introduces(doc, view, symbols, g, sym)
    } else {
        consumes(doc, view, symbols, g, sym)
    };
    if other {
        let h = choose|h: int|
            0 <= h < doc.hunks@.len() && #[trigger] carries_hunk(doc, g, h) && on_added_line(
                view.hunks@[h],
                t.table(view.hunks@[h], def),
                sym,
            );
        let c = choose|c: int|
            0 <= c < doc.classes@.len() && texts(g.class_ids@).contains(
                (#[trigger] doc.classes@[c]).id@,
            ) && texts(doc.classes@[c].hunk_ids@).contains(doc.hunks@[h].id@);
        let j = choose|j: int|
            0 <= j < g.class_ids@.len() && texts(g.class_ids@)[j] == doc.classes@[c].id@;
        assert(g.class_ids@[j]@ == cn[c]);
        lemma_last_pos(cn, cn[c]);
        let class = t.class(g.class_ids@[j]@);
        assert(class == doc.classes@[c]);
        let k = choose|k: int|
            0 <= k < class.hunk_ids@.len() && texts(class.hunk_ids@)[k] == doc.hunks@[h].id@;
        assert(class.hunk_ids@[k]@ == hn[h]);
        lemma_last_pos(hn, hn[h]);
        assert(t.hunk(class.hunk_ids@[k]@) == view.hunks@[h]);
        lemma_on_added_line(t, view.hunks@[h], def, sym);
        assert(t.class_has(class, def, sym));
        assert(t.group_has(g, def, sym));
    }
}

/// Groups that carry the same classes at the same effort introduce and consume the
/// same symbols.
proof fn lemma_same_classes(
    doc: PlanDocument,
    view: DiffView,
    symbols: Seq<FileSymbols>,
    a: Group,
    b: Group,
    sym: Seq<u8>,
)
    requires
        a.effort == b.effort,
        texts(a.class_ids@) == texts(b.class_ids@),
    ensures
        introduces(doc, view, symbols, a, sym) == introduces(doc, view, symbols, b, sym),
        consumes(doc, view, symbols, a, sym) == consumes(doc, view, symbols, b, sym),
{
    assert forall|h: int| #[trigger] carries_hunk(doc, a, h) == carries_hunk(doc, b, h) by {}
    assert forall|h: int| #[trigger] carries_hunk(doc, b, h) == carries_hunk(doc, a, h) by {}
}

/// What is known of a document and its ordered form, place by place.
proof fn lemma_ordered_place(
    was: PlanDocument,
    view: DiffView,
    symbols: Seq<FileSymbols>,
    now: PlanDocument,
    k: int,
) -> (p: int)
    requires
        was.groups is Some,
        is_ordered(was, view, symbols, now),
        now.groups is Some,
        0 <= k < now.groups->0@.len(),
    ensures
        now.groups->0@.len() == was.groups->0@.len(),
        0 <= p < was.groups->0@.len(),
        p == new_order(
            tables_of(was, view, symbols),
            was.groups->0@,
            was.audit.classes_missing,
        )[k],
        now.groups->0@[k]@ == placed(
            tables_of(was, view, symbols),
            was.groups->0@,
            p,
            k as nat,
        ),
        now.groups->0@[k].id@ == was.groups->0@[p].id@,
        now.groups->0@[k].effort == was.groups->0@[p].effort,
        texts(now.groups->0@[k].class_ids@) == texts(was.groups->0@[p].class_ids@),
{
    let groups = was.groups->0@;
    let t = tables_of(was, view, symbols);
    let listed = now.groups->0@;
    let ordered = ordered_groups(t, groups, was.audit.classes_missing);
    assert(group_views(listed) == ordered);
    assert(group_views(listed).len() == ordered.len());
    assert(ordered.len() == groups.len());
    let p = new_order(t, groups, was.audit.classes_missing)[k] as int;
    assert(group_views(listed)[k] == listed[k]@);
    p
}

proof fn lemma_depends_is_builds_on(
    was: PlanDocument,
    view: DiffView,
    symbols: Seq<FileSymbols>,
    g: int,
    d: int,
)
    requires
        can_order(was, view, symbols),
        was.groups is Some,
        ids_are_unique(was, was.groups->0@),
        0 <= g < was.groups->0@.len(),
        0 <= d < was.groups->0@.len(),
    ensures
        tables_of(was, view, symbols).depends(was.groups->0@, g, d) <==> builds_on(
            was,
            view,
            symbols,
            was.groups->0@,
            g,
            d,
        ),
{
    let groups = was.groups->0@;
    let t = tables_of(was, view, symbols);
    assert(t.complete(groups));
    assert forall|e: int, def: bool, sym: Seq<u8>|
        0 <= e < groups.len() implies #[trigger] t.group_has(groups[e], def, sym) == (if def {
        introduces(was, view, symbols, groups[e], sym)
    } else {
        consumes(was, view, symbols, groups[e], sym)
    }) by {
        lemma_group_has(was, view, symbols, groups, groups[e], def, sym);
    }
    if t.depends(groups, g, d) {
        let sym = choose|sym: Seq<u8>| #[trigger]
            t.group_has(groups[g], false, sym) && t.sole_definer(groups, d, sym);
        assert(consumes(was, view, symbols, groups[g], sym));
        assert(t.group_has(groups[d], true, sym));
        assert forall|e: int| 0 <= e < groups.len() && e != d implies !introduces(
            was,
            view,
            symbols,
            #[trigger] groups[e],
            sym,
        ) by {
            assert(!t.group_has(groups[e], true, sym));
        }
        assert(builds_on(was, view, symbols, groups, g, d));
    }
    if builds_on(was, view, symbols, groups, g, d) {
        let sym = choose|sym: Seq<u8>|
            {
                &&& #[trigger] consumes(was, view, symbols, groups[g], sym)
                &&& introduces(was, view, symbols, groups[d], sym)
                &&& forall|e: int|
                    0 <= e < groups.len() && e != d ==> !introduces(
                        was,
                        view,
                        symbols,
                        #[trigger] groups[e],
                        sym,
                    )
            };
        assert(t.group_has(groups[g], false, sym));
        assert(t.group_has(groups[d], true, sym));
        assert forall|e: int| 0 <= e < groups.len() && e != d implies !t.group_has(
            #[trigger] groups[e],
            true,
            sym,
        ) by {
            assert(!introduces(was, view, symbols, groups[e], sym));
        }
        assert(t.sole_definer(groups, d, sym));
    }
}

/// The names of the edges are those of the dependencies.
proof fn lemma_edge_names(t: Tables, groups: Seq<Group>, g: int, x: Seq<char>)
    requires
        groups.len() <= usize::MAX,
    ensures
        edge_names(t, groups, g).contains(x) <==> exists|d: int|
            0 <= d < groups.len() && #[trigger] t.depends(groups, g, d) && groups[d].id@ == x,
        edge_names(t, groups, g).len() == t.dep_list(groups, g, groups.len()).len(),
{
    let deps = t.dep_list(groups, g, groups.len());
    let names = Seq::new(deps.len(), |i: int| groups[deps[i] as int].id@);
    let edges = edge_names(t, groups, g);
    lemma_dep_list(t, groups, g, groups.len());
    lemma_dep_list_len(t, groups, g, groups.len());
    lemma_lt_is_order(names);
    lemma_sorted_multiset(names, |a: Seq<char>, b: Seq<char>| chars_lt(a, b));
    edges.to_multiset_ensures();
    names.to_multiset_ensures();
    assert(edges =~= sorted_by(names, |a: Seq<char>, b: Seq<char>| chars_lt(a, b)));
    assert(edges.contains(x) <==> edges.to_multiset().count(x) > 0);
    assert(names.contains(x) <==> names.to_multiset().count(x) > 0);
    assert(edges.contains(x) <==> names.contains(x));
    if names.contains(x) {
        let i = choose|i: int| 0 <= i < names.len() && names[i] == x;
        let d = deps[i] as int;
        assert(lists(deps, d));
        assert(t.depends(groups, g, d));
    }
    if exists|d: int| 0 <= d < groups.len() && #[trigger] t.depends(groups, g, d) && groups[d].id@ == x {
        let d = choose|d: int|
            0 <= d < groups.len() && #[trigger] t.depends(groups, g, d) && groups[d].id@ == x;
        assert(lists(deps, d));
        let i = choose|i: int| 0 <= i < deps.len() && #[trigger] deps[i] == d;
        assert(names[i] == x);
    }
}

proof fn lemma_dep_list_len(t: Tables, groups: Seq<Group>, g: int, n: nat)
    ensures
        t.dep_list(groups, g, n).len() <= n,
    decreases n,
{
    if n > 0 {
        lemma_dep_list_len(t, groups, g, (n - 1) as nat);
    }
}

/// A group of an ordered document names another one as a dependency exactly where it
/// uses, on a line that it adds, a symbol that the other one and no third group
/// introduces on an added line. A symbol that two groups introduce draws no edge, and
/// generated content draws none.
pub proof fn law_an_edge_needs_the_only_definer(
    was: PlanDocument,
    view: DiffView,
    symbols: Seq<FileSymbols>,
    now: PlanDocument,
    k: int,
    m: int,
)
    requires
        can_order(was, view, symbols),
        is_ordered(was, view, symbols, now),
        was.groups is Some,
        ids_are_unique(was, was.groups->0@),
        now.groups is Some,
        0 <= k < now.groups->0@.len(),
        0 <= m < now.groups->0@.len(),
    ensures
        texts(now.groups->0@[k].depends_on@).contains(now.groups->0@[m].id@) <==> builds_on(
            now,
            view,
            symbols,
            now.groups->0@,
            k,
            m,
        ),
        forall|x: Seq<char>| #[trigger]
            texts(now.groups->0@[k].depends_on@).contains(x) ==> exists|e: int|
                0 <= e < now.groups->0@.len() && (#[trigger] now.groups->0@[e]).id@ == x,
{
    let (old, new) = (was.groups->0@, now.groups->0@);
    let t = tables_of(was, view, symbols);
    let order = new_order(t, old, was.audit.classes_missing);
    let g = lemma_ordered_place(was, view, symbols, now, k);
    let d = lemma_ordered_place(was, view, symbols, now, m);
    assert(was.groups->0.len() <= usize::MAX);
    lemma_edge_names(t, old, g, old[d].id@);
    lemma_depends_is_builds_on(was, view, symbols, g, d);
    assert(new[k]@.depends_on == edge_names(t, old, g));
    assert(texts(new[k].depends_on@) == edge_names(t, old, g));
    if edge_names(t, old, g).contains(old[d].id@) {
        let x = choose|x: int|
            0 <= x < old.len() && #[trigger] t.depends(old, g, x) && old[x].id@ == old[d].id@;
        assert(x == d) by {
            if x < d {
                assert(old[x].id@ != old[d].id@);
            }
            if d < x {
                assert(old[d].id@ != old[x].id@);
            }
        }
    }
    lemma_builds_on_moves(was, view, symbols, now, k, m, g, d);
    assert forall|x: Seq<char>| #[trigger] texts(new[k].depends_on@).contains(x) implies exists|
        e: int,
    |
        0 <= e < new.len() && (#[trigger] new[e]).id@ == x by {
        lemma_edge_names(t, old, g, x);
        let y = choose|y: int|
            0 <= y < old.len() && #[trigger] t.depends(old, g, y) && old[y].id@ == x;
        assert(lists(order, y));
        let e = choose|e: int| 0 <= e < order.len() && #[trigger] order[e] == y;
        let q = lemma_ordered_place(was, view, symbols, now, e);
        assert(new[e].id@ == x);
    }
}

/// Moving the groups moves who builds on whom with them.
proof fn lemma_builds_on_moves(
    was: PlanDocument,
    view: DiffView,
    symbols: Seq<FileSymbols>,
    now: PlanDocument,
    k: int,
    m: int,
    g: int,
    d: int,
)
    requires
        is_ordered(was, view, symbols, now),
        was.groups is Some,
        now.groups is Some,
        0 <= k < now.groups->0@.len(),
        0 <= m < now.groups->0@.len(),
        now.groups->0@.len() == was.groups->0@.len(),
        g == new_order(
            tables_of(was, view, symbols),
            was.groups->0@,
            was.audit.classes_missing,
        )[k],
        d == new_order(
            tables_of(was, view, symbols),
            was.groups->0@,
            was.audit.classes_missing,
        )[m],
    ensures
        builds_on(was, view, symbols, was.groups->0@, g, d) <==> builds_on(
            now,
            view,
            symbols,
            now.groups->0@,
            k,
            m,
        ),
{
    let (old, new) = (was.groups->0@, now.groups->0@);
    let t = tables_of(was, view, symbols);
    let order = new_order(t, old, was.audit.classes_missing);
    assert(k == m <==> g == d) by {
        if k < m {
            assert(order[k] != order[m]);
        }
        if m < k {
            assert(order[m] != order[k]);
        }
    }
    assert forall|e: int, sym: Seq<u8>|
        0 <= e < new.len() implies #[trigger] introduces(now, view, symbols, new[e], sym)
        == introduces(was, view, symbols, old[order[e] as int], sym) by {
        let p = lemma_ordered_place(was, view, symbols, now, e);
        lemma_same_classes(was, view, symbols, new[e], old[p], sym);
        lemma_same_document(was, now, view, symbols, new[e], sym);
    }
    assert forall|e: int, sym: Seq<u8>|
        0 <= e < new.len() implies (#[trigger] consumes(now, view, symbols, new[e], sym)
        == consumes(was, view, symbols, old[order[e] as int], sym)) by {
        let p = lemma_ordered_place(was, view, symbols, now, e);
        lemma_same_classes(was, view, symbols, new[e], old[p], sym);
        lemma_same_document(was, now, view, symbols, new[e], sym);
    }
    if builds_on(was, view, symbols, old, g, d) {
        let sym = choose|sym: Seq<u8>|
            {
                &&& #[trigger] consumes(was, view, symbols, old[g], sym)
                &&& introduces(was, view, symbols, old[d], sym)
                &&& forall|e: int|
                    0 <= e < old.len() && e != d ==> !introduces(
                        was,
                        view,
                        symbols,
                        #[trigger] old[e],
                        sym,
                    )
            };
        assert(consumes(now, view, symbols, new[k], sym));
        assert(introduces(now, view, symbols, new[m], sym));
        assert forall|e: int| 0 <= e < new.len() && e != m implies !introduces(
            now,
            view,
            symbols,
            #[trigger] new[e],
            sym,
        ) by {
            if e < m {
                assert(order[e] != order[m]);
            } else {
                assert(order[m] != order[e]);
            }
            let p = order[e] as int;
            assert(0 <= p < old.len());
            assert(!introduces(was, view, symbols, old[p], sym));
        }
    }
    if builds_on(now, view, symbols, new, k, m) {
        let sym = choose|sym: Seq<u8>|
            {
                &&& #[trigger] consumes(now, view, symbols, new[k], sym)
                &&& introduces(now, view, symbols, new[m], sym)
                &&& forall|e: int|
                    0 <= e < new.len() && e != m ==> !introduces(
                        now,
                        view,
                        symbols,
                        #[trigger] new[e],
                        sym,
                    )
            };
        assert(consumes(was, view, symbols, old[g], sym));
        assert(introduces(was, view, symbols, old[d], sym));
        assert forall|p: int| 0 <= p < old.len() && p != d implies !introduces(
            was,
            view,
            symbols,
            #[trigger] old[p],
            sym,
        ) by {
            assert(lists(order, p));
            let e = choose|e: int| 0 <= e < order.len() && #[trigger] order[e] == p;
            assert(!introduces(now, view, symbols, new[e], sym));
        }
    }
}

/// Ordering leaves the classes and the hunks alone.
proof fn lemma_same_document(
    was: PlanDocument,
    now: PlanDocument,
    view: DiffView,
    symbols: Seq<FileSymbols>,
    g: Group,
    sym: Seq<u8>,
)
    requires
        now.classes == was.classes,
        now.hunks == was.hunks,
    ensures
        introduces(now, view, symbols, g, sym) == introduces(was, view, symbols, g, sym),
        consumes(now, view, symbols, g, sym) == consumes(was, view, symbols, g, sym),
{
    assert forall|h: int| #[trigger] carries_hunk(now, g, h) == carries_hunk(was, g, h) by {}
    assert forall|h: int| #[trigger] carries_hunk(was, g, h) == carries_hunk(now, g, h) by {}
}

/// The role of a group of an ordered document follows from the edges that it shows: a
/// focus group that another one names is a foundation, one that is not named but names
/// others is a consumer, and any other has no role. A skim group is mechanical.
pub proof fn law_roles_follow_the_edges(
    was: PlanDocument,
    view: DiffView,
    symbols: Seq<FileSymbols>,
    now: PlanDocument,
    k: int,
)
    requires
        can_order(was, view, symbols),
        is_ordered(was, view, symbols, now),
        was.groups is Some,
        ids_are_unique(was, was.groups->0@),
        now.groups is Some,
        0 <= k < now.groups->0@.len(),
    ensures
        ({
            let groups = now.groups->0@;
            let named = exists|e: int|
                0 <= e < groups.len() && texts((#[trigger] groups[e]).depends_on@).contains(
                    groups[k].id@,
                );
            &&& groups[k].effort == Effort::Skim ==> groups[k].role == Some(Role::Mechanical)
            &&& groups[k].effort == Effort::Focus ==> groups[k].role == (if named {
                Some(Role::Foundation)
            } else if groups[k].depends_on@.len() > 0 {
                Some(Role::Consumer)
            } else {
                None
            })
        }),
{
    let (old, new) = (was.groups->0@, now.groups->0@);
    let t = tables_of(was, view, symbols);
    let order = new_order(t, old, was.audit.classes_missing);
    assert(was.groups->0.len() <= usize::MAX);
    let p = lemma_ordered_place(was, view, symbols, now, k);
    lemma_edge_names(t, old, p, old[p].id@);
    assert(texts(new[k].depends_on@) == edge_names(t, old, p));
    assert(texts(new[k].depends_on@).len() == new[k].depends_on@.len());
    assert forall|e: int| 0 <= e < new.len() implies (texts(
        (#[trigger] new[e]).depends_on@,
    ).contains(new[k].id@) <==> t.depends(old, order[e] as int, p)) by {
        let q = lemma_ordered_place(was, view, symbols, now, e);
        lemma_edge_names(t, old, q, old[p].id@);
        assert(texts(new[e].depends_on@) == edge_names(t, old, q));
        if edge_names(t, old, q).contains(old[p].id@) {
            let x = choose|x: int|
                0 <= x < old.len() && #[trigger] t.depends(old, q, x) && old[x].id@ == old[p].id@;
            if x < p {
                assert(old[x].id@ != old[p].id@);
            }
            if p < x {
                assert(old[p].id@ != old[x].id@);
            }
        }
    }
    if exists|e: int| 0 <= e < old.len() && #[trigger] t.depends(old, e, p) {
        let q = choose|q: int| 0 <= q < old.len() && #[trigger] t.depends(old, q, p);
        assert(lists(order, q));
        let e = choose|e: int| 0 <= e < order.len() && #[trigger] order[e] == q;
        assert(texts(new[e].depends_on@).contains(new[k].id@));
    }
    if exists|e: int|
        0 <= e < new.len() && texts((#[trigger] new[e]).depends_on@).contains(new[k].id@) {
        let e = choose|e: int|
            0 <= e < new.len() && texts((#[trigger] new[e]).depends_on@).contains(new[k].id@);
        let q = lemma_ordered_place(was, view, symbols, now, e);
        assert(t.depends(old, q, p));
    }
}

/// Whether two groups are the same but for what ordering fills in.
pub open spec fn same_group(a: Group, b: Group) -> bool {
    &&& a.id@ == b.id@
    &&& a.label@ == b.label@
    &&& a.description@ == b.description@
    &&& a.reason@ == b.reason@
    &&& a.effort == b.effort
    &&& texts(a.class_ids@) == texts(b.class_ids@)
}

/// Whether a place is among those that ordering rearranges: every group up to it is a
/// focus group, and it is not the last place with something left out by the model.
pub open spec fn is_rearranged(was: PlanDocument, k: int) -> bool {
    let groups = was.groups->0@;
    &&& 0 <= k < groups.len()
    &&& forall|j: int| 0 <= j <= k ==> (#[trigger] groups[j]).effort == Effort::Focus
    &&& !(k == groups.len() - 1 && (was.audit.classes_missing matches Some(m) && m > 0))
}

proof fn lemma_rearranged(was: PlanDocument, k: int)
    requires
        was.groups is Some,
        0 <= k < was.groups->0@.len(),
    ensures
        is_rearranged(was, k) <==> k < prefix_len(was.groups->0@, was.audit.classes_missing),
{
    let groups = was.groups->0@;
    lemma_focus_run(groups, 0);
    let n = focus_run(groups, 0);
    lemma_focus_run_stops(groups, 0);
    if is_rearranged(was, k) && n <= k {
        assert(groups[n].effort == Effort::Focus);
    }
}

proof fn lemma_focus_run_stops(groups: Seq<Group>, from: int)
    ensures
        focus_run(groups, from) < groups.len() ==> groups[focus_run(groups, from)].effort
            != Effort::Focus,
    decreases groups.len() - from,
{
    if from < groups.len() && groups[from].effort == Effort::Focus {
        lemma_focus_run_stops(groups, from + 1);
    }
}

/// Ordering loses no group and makes none: each one is there with its label, texts,
/// effort and classes, ranked by its place. From the first group that is not a focus
/// group on, and at the last place where the model left something out, all stay.
pub proof fn law_ordering_only_rearranges(
    was: PlanDocument,
    view: DiffView,
    symbols: Seq<FileSymbols>,
    now: PlanDocument,
)
    requires
        can_order(was, view, symbols),
        is_ordered(was, view, symbols, now),
        was.groups is Some,
    ensures
        now.groups is Some,
        now.groups->0@.len() == was.groups->0@.len(),
        forall|g: int|
            0 <= g < was.groups->0@.len() ==> exists|k: int|
                0 <= k < now.groups->0@.len() && same_group(
                    #[trigger] now.groups->0@[k],
                    #[trigger] was.groups->0@[g],
                ),
        forall|k: int|
            0 <= k < now.groups->0@.len() ==> exists|g: int|
                0 <= g < was.groups->0@.len() && same_group(
                    #[trigger] now.groups->0@[k],
                    #[trigger] was.groups->0@[g],
                ),
        forall|k: int|
            0 <= k < now.groups->0@.len() && k <= u32::MAX ==> (#[trigger] now.groups->0@[k]).rank
                == k,
        forall|k: int|
            0 <= k < now.groups->0@.len() && !is_rearranged(was, k) ==> same_group(
                #[trigger] now.groups->0@[k],
                was.groups->0@[k],
            ),
        now.files == was.files && now.hunks == was.hunks && now.classes == was.classes
            && now.audit == was.audit,
{
    let (old, new) = (was.groups->0@, now.groups->0@);
    let t = tables_of(was, view, symbols);
    let order = new_order(t, old, was.audit.classes_missing);
    assert(group_views(new) == ordered_groups(t, old, was.audit.classes_missing));
    assert(group_views(new).len() == new.len());
    assert(ordered_groups(t, old, was.audit.classes_missing).len() == old.len());
    assert forall|k: int| 0 <= k < new.len() implies same_group(
        #[trigger] new[k],
        old[order[k] as int],
    ) && (k <= u32::MAX ==> new[k].rank == k) by {
        let p = lemma_ordered_place(was, view, symbols, now, k);
        assert(new[k]@ == placed(t, old, p, k as nat));
    }
    assert forall|g: int| 0 <= g < old.len() implies exists|k: int|
        0 <= k < new.len() && same_group(#[trigger] new[k], #[trigger] old[g]) by {
        assert(lists(order, g));
        let k = choose|k: int| 0 <= k < order.len() && #[trigger] order[k] == g;
        assert(same_group(new[k], old[g]));
    }
    assert forall|k: int| 0 <= k < new.len() implies exists|g: int|
        0 <= g < old.len() && same_group(#[trigger] new[k], #[trigger] old[g]) by {
        assert(same_group(new[k], old[order[k] as int]));
    }
    assert forall|k: int| 0 <= k < new.len() && !is_rearranged(was, k) implies same_group(
        #[trigger] new[k],
        old[k],
    ) by {
        lemma_rearranged(was, k);
        assert(order[k] == k);
    }
}

/// The number of hunks of the class with an id.
pub open spec fn class_size(doc: PlanDocument, id: Seq<char>) -> nat {
    let c = choose|c: int| 0 <= c < doc.classes@.len() && (#[trigger] doc.classes@[c]).id@ == id;
    doc.classes@[c].hunk_ids@.len()
}

/// The number of hunks of some classes together.
pub open spec fn hunks_carried(doc: PlanDocument, ids: Seq<Seq<char>>) -> nat
    decreases ids.len(),
{
    if ids.len() == 0 {
        0
    } else {
        class_size(doc, ids[0]) + hunks_carried(doc, ids.drop_first())
    }
}

proof fn lemma_hunks_carried_last(doc: PlanDocument, ids: Seq<Seq<char>>)
    requires
        ids.len() > 0,
    ensures
        hunks_carried(doc, ids) == hunks_carried(doc, ids.drop_last()) + class_size(
            doc,
            ids.last(),
        ),
    decreases ids.len(),
{
    if ids.len() == 1 {
        assert(hunks_carried(doc, ids.drop_first()) == 0);
        assert(hunks_carried(doc, ids.drop_last()) == 0);
    } else {
        lemma_hunks_carried_last(doc, ids.drop_first());
        assert(ids.drop_first().drop_last() =~= ids.drop_last().drop_first());
        assert(ids.drop_last()[0] == ids[0]);
        assert(ids.drop_first().last() == ids.last());
    }
}

proof fn lemma_weight(
    doc: PlanDocument,
    view: DiffView,
    symbols: Seq<FileSymbols>,
    groups: Seq<Group>,
    ids: Seq<Seq<char>>,
)
    requires
        ids_are_unique(doc, groups),
        forall|j: int|
            0 <= j < ids.len() ==> last_pos(class_names(doc.classes@), #[trigger] ids[j]) is Some,
    ensures
        tables_of(doc, view, symbols).weight(ids) == hunks_carried(doc, ids),
    decreases ids.len(),
{
    if ids.len() > 0 {
        let front = ids.drop_last();
        assert forall|j: int| 0 <= j < front.len() implies last_pos(
            class_names(doc.classes@),
            #[trigger] front[j],
        ) is Some by {
            assert(front[j] == ids[j]);
        }
        lemma_weight(doc, view, symbols, groups, front);
        lemma_hunks_carried_last(doc, ids);
        let id = ids.last();
        assert(ids[ids.len() - 1] == id);
        let cn = class_names(doc.classes@);
        lemma_last_pos(cn, id);
        let at = last_pos(cn, id)->0;
        assert(doc.classes@[at].id@ == id);
        let c = choose|c: int|
            0 <= c < doc.classes@.len() && (#[trigger] doc.classes@[c]).id@ == id;
        if c < at {
            assert(doc.classes@[c].id@ != doc.classes@[at].id@);
        }
        if at < c {
            assert(doc.classes@[at].id@ != doc.classes@[c].id@);
        }
    }
}

/// Whether a group of a document names one that stands at a place or behind it, among
/// those that ordering rearranges.
pub open spec fn waits_from(was: PlanDocument, groups: Seq<Group>, l: int, k: int) -> bool {
    exists|m: int|
        k <= m && #[trigger] is_rearranged(was, m) && texts(groups[l].depends_on@).contains(
            groups[m].id@,
        )
}

proof fn lemma_waits_from(
    was: PlanDocument,
    view: DiffView,
    symbols: Seq<FileSymbols>,
    now: PlanDocument,
    l: int,
    k: int,
)
    requires
        can_order(was, view, symbols),
        is_ordered(was, view, symbols, now),
        was.groups is Some,
        ids_are_unique(was, was.groups->0@),
        now.groups is Some,
        0 <= k,
        is_rearranged(was, k),
        is_rearranged(was, l),
        now.groups->0@.len() == was.groups->0@.len(),
    ensures
        ({
            let t = tables_of(was, view, symbols);
            let old = was.groups->0@;
            let len = prefix_len(old, was.audit.classes_missing);
            let order = new_order(t, old, was.audit.classes_missing);
            waits_from(was, now.groups->0@, l, k) <==> !ready(
                len,
                t.all_deps(old),
                order.take(len).take(k),
                order[l] as int,
            )
        }),
{
    let (old, new) = (was.groups->0@, now.groups->0@);
    let t = tables_of(was, view, symbols);
    let missing = was.audit.classes_missing;
    let len = prefix_len(old, missing);
    let order = new_order(t, old, missing);
    let deps = t.all_deps(old);
    let emitted = order.take(len).take(k);
    assert(was.groups->0.len() <= usize::MAX);
    lemma_rearranged(was, k);
    lemma_rearranged(was, l);
    lemma_focus_run(old, 0);
    let g = lemma_ordered_place(was, view, symbols, now, l);
    lemma_dep_list(t, old, g, old.len());
    assert(deps[g] == t.dep_list(old, g, old.len()));
    assert(forall|i: int| 0 <= i < k ==> emitted[i] == order[i]);
    assert forall|m: int| 0 <= m < old.len() implies (texts(new[l].depends_on@).contains(
        (#[trigger] new[m]).id@,
    ) <==> lists(deps[g], order[m] as int)) by {
        let d = lemma_ordered_place(was, view, symbols, now, m);
        lemma_edge_names(t, old, g, old[d].id@);
        assert(texts(new[l].depends_on@) == edge_names(t, old, g));
        if edge_names(t, old, g).contains(old[d].id@) {
            let x = choose|x: int|
                0 <= x < old.len() && #[trigger] t.depends(old, g, x) && old[x].id@ == old[d].id@;
            if x < d {
                assert(old[x].id@ != old[d].id@);
            }
            if d < x {
                assert(old[d].id@ != old[x].id@);
            }
        }
        assert(t.depends(old, g, d) <==> lists(deps[g], d));
    }
    if waits_from(was, new, l, k) {
        let m = choose|m: int|
            k <= m && #[trigger] is_rearranged(was, m) && texts(new[l].depends_on@).contains(
                new[m].id@,
            );
        lemma_rearranged(was, m);
        assert(lists(deps[g], order[m] as int));
        let i = choose|i: int| 0 <= i < deps[g].len() && #[trigger] deps[g][i] == order[m];
        assert(order.take(len)[m] == order[m]);
        assert(comes_next(
            len,
            deps,
            Seq::new(len as nat, |g: int| t.weight(texts(old[g].class_ids@)) as usize),
            order.take(len).take(m),
            order.take(len)[m] as int,
        ));
        if lists(emitted, order[m] as int) {
            let j = choose|j: int| 0 <= j < emitted.len() && #[trigger] emitted[j] == order[m];
            assert(order[j] != order[m]);
        }
        assert(deps[g][i] < len);
        assert(!ready(len, deps, emitted, g));
    }
    if !ready(len, deps, emitted, g) {
        let i = choose|i: int|
            0 <= i < deps[g].len() && !((#[trigger] deps[g][i]) >= len || lists(
                emitted,
                deps[g][i] as int,
            ));
        let d = deps[g][i] as int;
        assert(lists(order, d));
        let m = choose|m: int| 0 <= m < order.len() && #[trigger] order[m] == d;
        if m < k {
            assert(emitted[m] == d);
        }
        if m >= len {
            assert(order[m] == m);
        }
        lemma_rearranged(was, m);
        assert(lists(deps[g], d));
        assert(texts(new[l].depends_on@).contains(new[m].id@));
        assert(is_rearranged(was, m));
    }
}

/// Foundations come first, and of what could come next the largest: a group that stands
/// behind another, though it waits for nothing from that place on, waits no longer than
/// the other does, and carries no more hunks.
pub proof fn law_the_largest_of_those_ready_comes_next(
    was: PlanDocument,
    view: DiffView,
    symbols: Seq<FileSymbols>,
    now: PlanDocument,
    k: int,
    l: int,
)
    requires
        can_order(was, view, symbols),
        is_ordered(was, view, symbols, now),
        was.groups is Some,
        ids_are_unique(was, was.groups->0@),
        now.groups is Some,
        0 <= k < l,
        is_rearranged(was, l),
        now.groups->0@.len() == was.groups->0@.len(),
        !waits_from(was, now.groups->0@, l, k),
    ensures
        !waits_from(was, now.groups->0@, k, k),
        hunks_carried(now, texts(now.groups->0@[k].class_ids@)) >= hunks_carried(
            now,
            texts(now.groups->0@[l].class_ids@),
        ),
{
    let (old, new) = (was.groups->0@, now.groups->0@);
    let t = tables_of(was, view, symbols);
    let missing = was.audit.classes_missing;
    let len = prefix_len(old, missing);
    let order = new_order(t, old, missing);
    let deps = t.all_deps(old);
    let counts = Seq::new(len as nat, |g: int| t.weight(texts(old[g].class_ids@)) as usize);
    assert(is_rearranged(was, k));
    lemma_rearranged(was, k);
    lemma_rearranged(was, l);
    lemma_focus_run(old, 0);
    lemma_waits_from(was, view, symbols, now, l, k);
    lemma_waits_from(was, view, symbols, now, k, k);
    let head = order.take(len);
    let emitted = head.take(k);
    let p = lemma_ordered_place(was, view, symbols, now, k);
    let q = lemma_ordered_place(was, view, symbols, now, l);
    assert(head[k] == p && head[l] == q);
    assert(comes_next(len, deps, counts, emitted, head[k] as int));
    assert(comes_next(len, deps, counts, head.take(l), head[l] as int));
    assert(!lists(emitted, q)) by {
        if lists(emitted, q) {
            let j = choose|j: int| 0 <= j < emitted.len() && #[trigger] emitted[j] == q;
            assert(order[j] != order[l]);
        }
    }
    assert(pending(len, emitted, q));
    assert(eligible(len, deps, emitted, q));
    assert(preferred(counts, p, q));
    assert(ready(len, deps, emitted, p));
    lemma_group_weight(was, view, symbols, p);
    lemma_group_weight(was, view, symbols, q);
    lemma_carried_kept(was, now, texts(new[k].class_ids@));
    lemma_carried_kept(was, now, texts(new[l].class_ids@));
}

proof fn lemma_group_weight(
    was: PlanDocument,
    view: DiffView,
    symbols: Seq<FileSymbols>,
    g: int,
)
    requires
        can_order(was, view, symbols),
        was.groups is Some,
        ids_are_unique(was, was.groups->0@),
        0 <= g < was.groups->0@.len(),
        was.groups->0@[g].effort != Effort::Noise,
    ensures
        tables_of(was, view, symbols).weight(texts(was.groups->0@[g].class_ids@))
            == hunks_carried(was, texts(was.groups->0@[g].class_ids@)),
        hunks_carried(was, texts(was.groups->0@[g].class_ids@)) <= usize::MAX,
{
    let old = was.groups->0@;
    let t = tables_of(was, view, symbols);
    let ids = texts(old[g].class_ids@);
    assert(t.resolves(old[g]));
    assert forall|j: int| 0 <= j < ids.len() implies last_pos(
        class_names(was.classes@),
        #[trigger] ids[j],
    ) is Some by {
        assert(t.class_resolves(old[g].class_ids@[j]@));
    }
    lemma_weight(was, view, symbols, old, ids);
}

proof fn lemma_carried_kept(was: PlanDocument, now: PlanDocument, ids: Seq<Seq<char>>)
    requires
        now.classes == was.classes,
    ensures
        hunks_carried(now, ids) == hunks_carried(was, ids),
    decreases ids.len(),
{
    if ids.len() > 0 {
        lemma_carried_kept(was, now, ids.drop_first());
    }
}

/// Where the edges of the groups that are rearranged form no cycle, every group comes
/// behind all of them that it names.
pub proof fn law_foundations_come_first(
    was: PlanDocument,
    view: DiffView,
    symbols: Seq<FileSymbols>,
    now: PlanDocument,
    level: spec_fn(Seq<char>) -> nat,
    k: int,
    m: int,
)
    requires
        can_order(was, view, symbols),
        is_ordered(was, view, symbols, now),
        was.groups is Some,
        ids_are_unique(was, was.groups->0@),
        now.groups is Some,
        now.groups->0@.len() == was.groups->0@.len(),
        forall|a: int, b: int|
            is_rearranged(was, a) && is_rearranged(was, b) && texts(
                (#[trigger] now.groups->0@[a]).depends_on@,
            ).contains((#[trigger] now.groups->0@[b]).id@) ==> level(now.groups->0@[b].id@) < level(
                now.groups->0@[a].id@,
            ),
        is_rearranged(was, k),
        is_rearranged(was, m),
        texts(now.groups->0@[k].depends_on@).contains(now.groups->0@[m].id@),
    ensures
        m < k,
{
    let (old, new) = (was.groups->0@, now.groups->0@);
    let t = tables_of(was, view, symbols);
    let missing = was.audit.classes_missing;
    let len = prefix_len(old, missing);
    let order = new_order(t, old, missing);
    let deps = t.all_deps(old);
    let head = order.take(len);
    lemma_rearranged(was, k);
    lemma_rearranged(was, m);
    lemma_focus_run(old, 0);
    if k <= m {
        assert(waits_from(was, new, k, k));
        lemma_waits_from(was, view, symbols, now, k, k);
        assert(comes_next(
            len,
            deps,
            Seq::new(len as nat, |g: int| t.weight(texts(old[g].class_ids@)) as usize),
            head.take(k),
            head[k] as int,
        ));
        lemma_some_free(was, view, symbols, now, level, k, k);
    }
}

/// Without cycles, some group from a place on waits for nothing there.
proof fn lemma_some_free(
    was: PlanDocument,
    view: DiffView,
    symbols: Seq<FileSymbols>,
    now: PlanDocument,
    level: spec_fn(Seq<char>) -> nat,
    k: int,
    l: int,
)
    requires
        can_order(was, view, symbols),
        is_ordered(was, view, symbols, now),
        was.groups is Some,
        ids_are_unique(was, was.groups->0@),
        now.groups is Some,
        now.groups->0@.len() == was.groups->0@.len(),
        forall|a: int, b: int|
            is_rearranged(was, a) && is_rearranged(was, b) && texts(
                (#[trigger] now.groups->0@[a]).depends_on@,
            ).contains((#[trigger] now.groups->0@[b]).id@) ==> level(now.groups->0@[b].id@) < level(
                now.groups->0@[a].id@,
            ),
        0 <= k <= l,
        is_rearranged(was, l),
    ensures
        ({
            let t = tables_of(was, view, symbols);
            let old = was.groups->0@;
            let len = prefix_len(old, was.audit.classes_missing);
            let order = new_order(t, old, was.audit.classes_missing);
            some_ready(len, t.all_deps(old), order.take(len).take(k))
        }),
    decreases level(now.groups->0@[l].id@),
{
    let (old, new) = (was.groups->0@, now.groups->0@);
    let t = tables_of(was, view, symbols);
    let missing = was.audit.classes_missing;
    let len = prefix_len(old, missing);
    let order = new_order(t, old, missing);
    let deps = t.all_deps(old);
    let emitted = order.take(len).take(k);
    lemma_rearranged(was, l);
    lemma_rearranged(was, k);
    lemma_focus_run(old, 0);
    assert(is_rearranged(was, k));
    lemma_waits_from(was, view, symbols, now, l, k);
    if waits_from(was, new, l, k) {
        let m = choose|m: int|
            k <= m && #[trigger] is_rearranged(was, m) && texts(new[l].depends_on@).contains(
                new[m].id@,
            );
        assert(level(new[m].id@) < level(new[l].id@));
        lemma_some_free(was, view, symbols, now, level, k, m);
    } else {
        let g = order[l] as int;
        let head = order.take(len);
        assert(head[l] == g);
        assert(comes_next(
            len,
            deps,
            Seq::new(len as nat, |g: int| t.weight(texts(old[g].class_ids@)) as usize),
            head.take(l),
            head[l] as int,
        ));
        if lists(emitted, g) {
            let j = choose|j: int| 0 <= j < emitted.len() && #[trigger] emitted[j] == g;
            assert(order[j] != order[l]);
        }
        assert(pending(len, emitted, g));
    }
}

proof fn lemma_steps_of(steps: Seq<StepContent>, group: Seq<char>)
    ensures
        forall|x: StepContent| #[trigger]
            steps_of(steps, group).contains(x) <==> steps.contains(x) && x.group == group,
    decreases steps.len(),
{
    if steps.len() > 0 {
        let fewer = steps.drop_last();
        lemma_steps_of(fewer, group);
        assert(steps =~= fewer.push(steps.last()));
        assert forall|x: StepContent| #[trigger] steps_of(steps, group).contains(x)
            <==> steps.contains(x) && x.group == group by {
            lemma_push_contains(fewer, steps.last(), x);
            lemma_push_contains(steps_of(fewer, group), steps.last(), x);
        }
    }
}

/// The steps of a list of groups come in the order of the groups.
proof fn lemma_regrouped(names: Seq<Seq<char>>, steps: Seq<StepContent>)
    requires
        names.no_duplicates(),
    ensures
        forall|x: StepContent| #[trigger]
            regrouped(names, steps).contains(x) <==> steps.contains(x) && names.contains(x.group),
        forall|i: int, j: int, a: int, b: int|
            0 <= i < j < regrouped(names, steps).len() && 0 <= a < names.len() && 0 <= b
                < names.len() && #[trigger] names[a] == (#[trigger] regrouped(names, steps)[i]).group
                && #[trigger] names[b] == (#[trigger] regrouped(names, steps)[j]).group ==> a <= b,
    decreases names.len(),
{
    if names.len() > 0 {
        let fewer = names.drop_last();
        let last = names.last();
        assert(fewer.no_duplicates());
        assert(!fewer.contains(last)) by {
            if fewer.contains(last) {
                let k = choose|k: int| 0 <= k < fewer.len() && fewer[k] == last;
                assert(names[k] == names[names.len() - 1]);
            }
        }
        lemma_regrouped(fewer, steps);
        lemma_steps_of(steps, last);
        let before = regrouped(fewer, steps);
        let own = steps_of(steps, last);
        let all = regrouped(names, steps);
        assert(names =~= fewer.push(last));
        assert forall|x: StepContent| #[trigger] all.contains(x) <==> steps.contains(x)
            && names.contains(x.group) by {
            lemma_push_contains(fewer, last, x.group);
            if all.contains(x) {
                let k = choose|k: int| 0 <= k < all.len() && all[k] == x;
                if k < before.len() {
                    assert(before[k] == x);
                    assert(before.contains(x));
                } else {
                    assert(own[k - before.len()] == x);
                    assert(own.contains(x));
                }
            }
            if before.contains(x) {
                let k = choose|k: int| 0 <= k < before.len() && before[k] == x;
                assert(all[k] == x);
            }
            if own.contains(x) {
                let k = choose|k: int| 0 <= k < own.len() && own[k] == x;
                assert(all[before.len() + k] == x);
            }
        }
        assert forall|i: int, j: int, a: int, b: int|
            0 <= i < j < all.len() && 0 <= a < names.len() && 0 <= b < names.len()
                && #[trigger] names[a] == (#[trigger] all[i]).group && #[trigger] names[b] == (
            #[trigger] all[j]).group implies a <= b by {
            let n = names.len() - 1;
            if j < before.len() {
                assert(before[i] == all[i] && before[j] == all[j]);
                assert(before.contains(before[i]) && before.contains(before[j]));
                if a == n {
                    assert(fewer.contains(last));
                }
                if b == n {
                    assert(fewer.contains(last));
                }
                assert(fewer[a] == names[a] && fewer[b] == names[b]);
            } else {
                let x = own[j - before.len()];
                assert(own.contains(x));
                assert(x.group == names[n]);
                assert(b == n);
            }
        }
    }
}

/// The reading plan follows the groups: every step of a group is in it, no other one is,
/// and the steps of a group stand before those of the groups behind it.
pub proof fn law_the_plan_follows_the_groups(
    was: PlanDocument,
    view: DiffView,
    symbols: Seq<FileSymbols>,
    now: PlanDocument,
)
    requires
        can_order(was, view, symbols),
        is_ordered(was, view, symbols, now),
        was.groups is Some,
        was.reading_plan is Some,
        now.groups is Some,
        forall|g: int, h: int|
            0 <= g < h < now.groups->0@.len() ==> (#[trigger] now.groups->0@[g]).id@ != (
            #[trigger] now.groups->0@[h]).id@,
    ensures
        now.reading_plan is Some,
        forall|x: StepContent| #[trigger]
            step_views(now.reading_plan->0@).contains(x) <==> step_views(
                was.reading_plan->0@,
            ).contains(x) && exists|g: int|
                0 <= g < now.groups->0@.len() && (#[trigger] now.groups->0@[g]).id@ == x.group,
        forall|i: int, j: int, g: int, h: int|
            0 <= i < j < now.reading_plan->0@.len() && 0 <= g < now.groups->0@.len() && 0 <= h
                < now.groups->0@.len() && (#[trigger] now.groups->0@[g]).id@ == (
            #[trigger] now.reading_plan->0@[i]).group@ && (#[trigger] now.groups->0@[h]).id@ == (
            #[trigger] now.reading_plan->0@[j]).group@ ==> g <= h,
{
    let groups = now.groups->0@;
    let plan = now.reading_plan->0@;
    let t = tables_of(was, view, symbols);
    let ordered = ordered_groups(t, was.groups->0@, was.audit.classes_missing);
    let names = content_ids(ordered);
    let steps = step_views(was.reading_plan->0@);
    assert(group_views(groups) == ordered);
    assert(group_views(groups).len() == groups.len());
    assert forall|g: int| 0 <= g < groups.len() implies #[trigger] names[g] == groups[g].id@ by {
        assert(group_views(groups)[g] == groups[g]@);
    }
    assert forall|g: int, h: int| 0 <= g < names.len() && 0 <= h < names.len() && g != h implies names[g]
        != names[h] by {
        if g < h {
            assert(groups[g].id@ != groups[h].id@);
        } else {
            assert(groups[h].id@ != groups[g].id@);
        }
    }
    lemma_regrouped(names, steps);
    let all = step_views(plan);
    assert(all == regrouped(names, steps));
    assert forall|x: StepContent| #[trigger] all.contains(x) <==> steps.contains(x) && exists|g: int|
        0 <= g < groups.len() && (#[trigger] groups[g]).id@ == x.group by {
        if names.contains(x.group) {
            let g = choose|g: int| 0 <= g < names.len() && names[g] == x.group;
            assert(groups[g].id@ == x.group);
        }
        if exists|g: int| 0 <= g < groups.len() && (#[trigger] groups[g]).id@ == x.group {
            let g = choose|g: int| 0 <= g < groups.len() && (#[trigger] groups[g]).id@ == x.group;
            assert(names[g] == x.group);
        }
    }
    assert forall|i: int, j: int, g: int, h: int|
        0 <= i < j < plan.len() && 0 <= g < groups.len() && 0 <= h < groups.len() && (
        #[trigger] groups[g]).id@ == (#[trigger] plan[i]).group@ && (#[trigger] groups[h]).id@ == (
        #[trigger] plan[j]).group@ implies g <= h by {
        assert(all[i] == plan[i]@ && all[j] == plan[j]@);
        assert(names[g] == regrouped(names, steps)[i].group);
        assert(names[h] == regrouped(names, steps)[j].group);
    }
}

} // verus!
