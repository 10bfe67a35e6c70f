//! The class dependency graph: definition-to-use edges between shape classes.
//!
//! It is a fact about the diff, not about the grouping: what depends on what cannot
//! turn on how a label was drawn. A wrong edge misorders, and it can never hide
//! content. Every edge carries the symbols that produced it, so a consumer can
//! judge one by its cause.
use vstd::prelude::*;

use super::symbols::{symbols_at, FileSymbols, Scope, Symbol};
use crate::invariants::blob_answer;
use crate::model::{DiffView, FileChange, Hunk};
use crate::ports::{ObjectReader, SymbolReader};
use crate::schema::ClassEdge;
use crate::seqs::{bytes_eq, chars_lt, copy_bytes, is_sorted_set, lemma_push_contains, sort_set, texts};
use crate::shape::Partition;
use crate::text::{decimal, law_decimal_round_trip, lossy, lossy_text, push_decimal};
use crate::EngineError;

verus! {

/// What each class introduces, and which classes it consumes. Both are indexed by
/// class, parallel to the classes of the partition.
#[derive(Debug, Clone)]
pub struct ClassGraph {
    pub defines: Vec<Vec<String>>,
    pub depends_on: Vec<Vec<ClassEdge>>,
}

/// A symbol as the graph compares it.
///
/// A global name stands alone, which is what lets an edge cross a file. A
/// file-local name carries the index of its file, so it is only ever equal to
/// itself.
#[derive(Debug, Clone)]
pub struct Key {
    pub file: Option<usize>,
    pub name: Vec<u8>,
}

pub open spec fn key_view(k: Key) -> (Option<usize>, Seq<u8>) {
    (k.file, k.name@)
}

pub open spec fn key_views(ks: Seq<Key>) -> Seq<(Option<usize>, Seq<u8>)> {
    ks.map_values(|k: Key| key_view(k))
}

/// The key of a symbol read from a file.
pub open spec fn key_of(file: usize, s: Symbol) -> (Option<usize>, Seq<u8>) {
    match s.scope {
        Scope::Global => (None, s.name@),
        Scope::File => (Some(file), s.name@),
    }
}

/// The keys of the first `k` lines from `start` on.
pub open spec fn line_keys(
    rows: Seq<Vec<Symbol>>,
    file: usize,
    start: int,
    k: nat,
) -> Seq<(Option<usize>, Seq<u8>)>
    decreases k,
{
    if k == 0 {
        Seq::empty()
    } else {
        line_keys(rows, file, start, (k - 1) as nat) + symbols_at(rows, start + k - 1).map_values(
            |s: Symbol| key_of(file, s),
        )
    }
}

/// Whether a file can give symbols: generated content defines nothing, and the only
/// line of a submodule is prose about a commit that is not here.
pub open spec fn gives_symbols(f: FileChange) -> bool {
    f.generated is None && f.submodule is None
}

/// The keys on the added lines of a hunk.
pub open spec fn hunk_keys(
    view: &DiffView,
    parsed: Seq<Option<FileSymbols>>,
    h: Hunk,
    defines: bool,
) -> Seq<(Option<usize>, Seq<u8>)> {
    if !gives_symbols(view.files@[h.file as int]) {
        Seq::empty()
    } else {
        match parsed[h.file as int] {
            Some(fs) => line_keys(fs.rows(defines), h.file, h.new_start as int, h.added@.len()),
            None => Seq::empty(),
        }
    }
}

/// The keys on the added lines of the first `k` members of a class.
pub open spec fn class_keys(
    view: &DiffView,
    parsed: Seq<Option<FileSymbols>>,
    members: Seq<usize>,
    defines: bool,
    k: nat,
) -> Seq<(Option<usize>, Seq<u8>)>
    decreases k,
{
    if k == 0 {
        Seq::empty()
    } else {
        class_keys(view, parsed, members, defines, (k - 1) as nat) + hunk_keys(
            view,
            parsed,
            view.hunks@[members[k - 1] as int],
            defines,
        )
    }
}

/// What the graph is made of.
pub struct Source {
    pub view: DiffView,
    pub parsed: Seq<Option<FileSymbols>>,
    pub classes: Seq<Vec<usize>>,
}

impl Source {
    /// The keys that a class defines, or mentions.
    pub open spec fn keys(&self, class: int, defines: bool) -> Seq<(Option<usize>, Seq<u8>)> {
        class_keys(
            &self.view,
            self.parsed,
            self.classes[class]@,
            defines,
            self.classes[class]@.len(),
        )
    }

    /// Whether a class defines a key.
    pub open spec fn defined_by(&self, key: (Option<usize>, Seq<u8>), class: int) -> bool {
        0 <= class < self.classes.len() && self.keys(class, true).contains(key)
    }

    /// Whether a class is the only one that defines a key. A symbol that two
    /// classes define is ambiguous and draws no edge.
    pub open spec fn sole_definer(&self, key: (Option<usize>, Seq<u8>), class: int) -> bool {
        self.defined_by(key, class) && forall|other: int| #[trigger]
            self.defined_by(key, other) ==> other == class
    }

    /// Whether a text names a symbol that class `from` mentions and class `to`,
    /// another one, alone defines.
    pub open spec fn drawn_by(&self, from: int, to: int, name: Seq<char>) -> bool {
        from != to && exists|i: int|
            0 <= i < self.keys(from, false).len() && self.sole_definer(
                #[trigger] self.keys(from, false)[i],
                to,
            ) && lossy_text(self.keys(from, false)[i].1) == name
    }

    /// Whether class `from` consumes what class `to` defines.
    pub open spec fn consumes(&self, from: int, to: int) -> bool {
        exists|name: Seq<char>| #[trigger] self.drawn_by(from, to, name)
    }

    /// Whether a list of names is what a class defines: sorted, each name once.
    pub open spec fn is_defines(&self, names: Seq<Seq<char>>, class: int) -> bool {
        is_sorted_set(
            names,
            self.keys(class, true).map_values(|k: (Option<usize>, Seq<u8>)| lossy_text(k.1)),
        )
    }

    /// Whether an edge leads to a class, with the names that draw it.
    pub open spec fn is_edge(&self, e: ClassEdge, from: int, to: int) -> bool {
        &&& e.on@ == seq!['C'] + decimal(to as nat)
        &&& self.consumes(from, to)
        &&& forall|a: int, b: int|
            0 <= a < b < e.via@.len() ==> chars_lt(
                #[trigger] texts(e.via@)[a],
                #[trigger] texts(e.via@)[b],
            )
        &&& forall|name: Seq<char>| #[trigger]
            texts(e.via@).contains(name) <==> self.drawn_by(from, to, name)
    }

    /// Whether edges are those of a class to the first `k` classes: to each class it
    /// consumes, in order.
    pub open spec fn are_edges(
        &self,
        edges: Seq<ClassEdge>,
        targets: Seq<int>,
        from: int,
        k: int,
    ) -> bool {
        &&& edges.len() == targets.len()
        &&& forall|i: int, j: int| 0 <= i < j < targets.len() ==> targets[i] < targets[j]
        &&& forall|i: int|
            0 <= i < targets.len() ==> 0 <= #[trigger] targets[i] < k && self.is_edge(
                edges[i],
                from,
                targets[i],
            )
        &&& forall|to: int| 0 <= to < k && #[trigger] self.consumes(from, to) ==> targets.contains(to)
    }

    /// Whether edges are those of a class.
    pub open spec fn is_depends_on(&self, edges: Seq<ClassEdge>, from: int) -> bool {
        exists|targets: Seq<int>| #[trigger]
            self.are_edges(edges, targets, from, self.classes.len() as int)
    }
}

fn key(file: usize, s: &Symbol) -> (r: Key)
    ensures
        key_view(r) == key_of(file, *s),
{
    let name = copy_bytes(s.name.as_slice());
    match s.scope {
        Scope::Global => Key { file: None, name },
        Scope::File => Key { file: Some(file), name },
    }
}

/// Whether two keys are the same.
fn same_key(a: &Key, b: &Key) -> (r: bool)
    ensures
        r == (key_view(*a) == key_view(*b)),
{
    let same_file = match (a.file, b.file) {
        (None, None) => true,
        (Some(x), Some(y)) => x == y,
        _ => false,
    };
    same_file && bytes_eq(a.name.as_slice(), b.name.as_slice())
}

fn add_hunk(out: &mut Vec<Key>, view: &DiffView, parsed: &Vec<Option<FileSymbols>>, hi: usize, defines: bool)
    requires
        view.wf(),
        parsed@.len() == view.files@.len(),
        hi < view.hunks@.len(),
    ensures
        key_views(final(out)@) == key_views(old(out)@) + hunk_keys(
            view,
            parsed@,
            view.hunks@[hi as int],
            defines,
        ),
{
    let h = &view.hunks[hi];
    let ghost base = key_views(out@);
    assert(base + Seq::empty() =~= base);
    let f = &view.files[h.file];
    if f.generated.is_some() || f.submodule.is_some() {
        return;
    }
    if let Some(fs) = &parsed[h.file] {
        let rows = if defines {
            &fs.defines
        } else {
            &fs.references
        };
        let n = h.added.len();
        let total = rows.len();
        for i in 0..n
            invariant
                n == h.added@.len(),
                total == rows@.len(),
                rows@ == fs.rows(defines),
                key_views(out@) == base + line_keys(
                    rows@,
                    h.file,
                    h.new_start as int,
                    i as nat,
                ),
        {
            let ghost row = symbols_at(rows@, h.new_start + i);
            let ghost mapped = row.map_values(|s: Symbol| key_of(h.file, s));
            let ghost before = key_views(out@);
            let line: Option<u64> = (h.new_start as u64).checked_add(i as u64);
            let mut listed = false;
            if let Some(at) = line {
                if at >= 1 && at <= total as u64 {
                    listed = true;
                    let place: usize = at as usize - 1;
                    let list = &rows[place];
                    assert(list@ == row);
                    for j in 0..list.len()
                        invariant
                            list@ == row,
                            mapped == row.map_values(|s: Symbol| key_of(h.file, s)),
                            key_views(out@) == before + mapped.take(j as int),
                    {
                        let ghost had = key_views(out@);
                        out.push(key(h.file, &list[j]));
                        proof {
                            assert(key_views(out@) =~= had.push(mapped[j as int]));
                            assert(before + mapped.take(j + 1) =~= had.push(mapped[j as int]));
                        }
                    }
                    assert(mapped.take(mapped.len() as int) =~= mapped);
                }
            }
            if !listed {
                assert(row =~= Seq::<Symbol>::empty());
                assert(before + mapped =~= before);
            }
            assert(key_views(out@) =~= base + line_keys(
                rows@,
                h.file,
                h.new_start as int,
                (i + 1) as nat,
            ));
        }
    }
}

fn collect_keys(
    view: &DiffView,
    parsed: &Vec<Option<FileSymbols>>,
    members: &Vec<usize>,
    defines: bool,
) -> (r: Vec<Key>)
    requires
        view.wf(),
        parsed@.len() == view.files@.len(),
        forall|i: int| 0 <= i < members@.len() ==> (#[trigger] members@[i]) < view.hunks@.len(),
    ensures
        key_views(r@) == class_keys(view, parsed@, members@, defines, members@.len()),
{
    let mut out: Vec<Key> = Vec::new();
    assert(key_views(out@) =~= Seq::empty());
    for i in 0..members.len()
        invariant
            view.wf(),
            parsed@.len() == view.files@.len(),
            forall|i: int| 0 <= i < members@.len() ==> (#[trigger] members@[i]) < view.hunks@.len(),
            key_views(out@) == class_keys(view, parsed@, members@, defines, i as nat),
    {
        add_hunk(&mut out, view, parsed, members[i], defines);
    }
    out
}

/// Whether a list holds a key.
fn holds_key(keys: &Vec<Key>, k: &Key) -> (r: bool)
    ensures
        r == key_views(keys@).contains(key_view(*k)),
{
    let ghost all = key_views(keys@);
    for i in 0..keys.len()
        invariant
            all == key_views(keys@),
            forall|j: int| 0 <= j < i ==> #[trigger] all[j] != key_view(*k),
    {
        if same_key(&keys[i], k) {
            assert(all[i as int] == key_view(*k));
            return true;
        }
        assert(all[i as int] != key_view(*k));
    }
    false
}

/// The class that alone defines a key.
fn sole(defs: &Vec<Vec<Key>>, k: &Key, Ghost(src): Ghost<Source>) -> (r: Option<usize>)
    requires
        defs@.len() == src.classes.len(),
        forall|c: int|
            0 <= c < defs@.len() ==> key_views((#[trigger] defs@[c])@) == src.keys(c, true),
    ensures
        match r {
            Some(c) => src.sole_definer(key_view(*k), c as int),
            None => forall|c: int| !src.sole_definer(key_view(*k), c),
        },
{
    let mut found: Option<usize> = None;
    let mut many = false;
    for c in 0..defs.len()
        invariant
            defs@.len() == src.classes.len(),
            forall|c: int|
                0 <= c < defs@.len() ==> key_views((#[trigger] defs@[c])@) == src.keys(c, true),
            match found {
                Some(f) => f < c && src.defined_by(key_view(*k), f as int),
                None => forall|d: int| 0 <= d < c ==> !src.defined_by(key_view(*k), d),
            },
            !many && found is Some ==> forall|d: int|
                0 <= d < c && #[trigger] src.defined_by(key_view(*k), d) ==> d == found->0,
            many ==> exists|a: int, b: int|
                a != b && #[trigger] src.defined_by(key_view(*k), a) && #[trigger] src.defined_by(
                    key_view(*k),
                    b,
                ),
    {
        if holds_key(&defs[c], k) {
            assert(src.defined_by(key_view(*k), c as int));
            if found.is_some() {
                many = true;
            } else {
                found = Some(c);
            }
        } else {
            assert(!src.defined_by(key_view(*k), c as int));
        }
    }
    if many {
        None
    } else {
        found
    }
}

/// The edge of one class to another, where it consumes it.
fn edge(
    refs: &Vec<Key>,
    targets: &Vec<Option<usize>>,
    from: usize,
    to: usize,
    Ghost(src): Ghost<Source>,
) -> (r: Option<ClassEdge>)
    requires
        from != to,
        targets@.len() == refs@.len(),
        key_views(refs@) == src.keys(from as int, false),
        forall|i: int|
            0 <= i < refs@.len() ==> match #[trigger] targets@[i] {
                Some(c) => src.sole_definer(key_view(refs@[i]), c as int),
                None => forall|c: int| !src.sole_definer(key_view(refs@[i]), c),
            },
    ensures
        match r {
            Some(e) => src.is_edge(e, from as int, to as int),
            None => !src.consumes(from as int, to as int),
        },
{
    let ghost keys = src.keys(from as int, false);
    let mut names: Vec<String> = Vec::new();
    for i in 0..refs.len()
        invariant
            keys == src.keys(from as int, false),
            targets@.len() == refs@.len(),
            key_views(refs@) == keys,
            forall|i: int|
                0 <= i < refs@.len() ==> match #[trigger] targets@[i] {
                    Some(c) => src.sole_definer(key_view(refs@[i]), c as int),
                    None => forall|c: int| !src.sole_definer(key_view(refs@[i]), c),
                },
            forall|name: Seq<char>| #[trigger]
                texts(names@).contains(name) <==> exists|k: int|
                    0 <= k < i && src.sole_definer(#[trigger] keys[k], to as int) && lossy_text(
                        keys[k].1,
                    ) == name,
    {
        assert(keys[i as int] == key_view(refs@[i as int]));
        let ghost had = texts(names@);
        let yes = match targets[i] {
            Some(c) => c == to,
            None => false,
        };
        proof {
            let t = targets@[i as int];
            if let Some(c) = t {
                if src.sole_definer(keys[i as int], to as int) {
                    assert(src.defined_by(keys[i as int], to as int));
                    assert(src.defined_by(keys[i as int], c as int));
                }
            }
            assert(yes == src.sole_definer(keys[i as int], to as int));
        }
        if yes {
            names.push(lossy(refs[i].name.as_slice()));
            assert(texts(names@) =~= had.push(lossy_text(keys[i as int].1)));
        }
        proof {
            assert forall|name: Seq<char>| #[trigger]
                texts(names@).contains(name) <==> exists|k: int|
                    0 <= k < i + 1 && src.sole_definer(#[trigger] keys[k], to as int)
                        && lossy_text(keys[k].1) == name by {
                if yes {
                    lemma_push_contains(had, lossy_text(keys[i as int].1), name);
                }
                if had.contains(name) {
                    let k = choose|k: int|
                        0 <= k < i && src.sole_definer(#[trigger] keys[k], to as int)
                            && lossy_text(keys[k].1) == name;
                    assert(src.sole_definer(keys[k], to as int));
                }
            }
        }
    }
    proof {
        assert forall|name: Seq<char>| #[trigger]
            texts(names@).contains(name) <==> src.drawn_by(from as int, to as int, name) by {
            assert(texts(names@).contains(name) <==> exists|k: int|
                0 <= k < keys.len() && src.sole_definer(#[trigger] keys[k], to as int)
                    && lossy_text(keys[k].1) == name);
        }
    }
    if names.len() == 0 {
        proof {
            assert(texts(names@).len() == 0);
            if src.consumes(from as int, to as int) {
                let name = choose|name: Seq<char>| #[trigger]
                    src.drawn_by(from as int, to as int, name);
                assert(texts(names@).contains(name));
            }
        }
        return None;
    }
    let via = sort_set(&names);
    let mut on = String::new();
    on.push('C');
    push_decimal(&mut on, to as u64);
    proof {
        assert(on@ =~= seq!['C'] + decimal(to as nat));
        assert(texts(names@)[0] == names@[0]@);
        assert(texts(names@).contains(names@[0]@));
        assert(src.drawn_by(from as int, to as int, names@[0]@));
    }
    Some(ClassEdge { on, via })
}

/// Whether a graph is the one over the added lines of every class.
pub open spec fn is_graph(
    view: &DiffView,
    partition: &Partition,
    parsed: Seq<Option<FileSymbols>>,
    g: ClassGraph,
) -> bool {
    let src = Source { view: *view, parsed, classes: partition.classes@ };
    let n = partition.classes@.len();
    &&& g.defines@.len() == n
    &&& g.depends_on@.len() == n
    &&& forall|c: int| 0 <= c < n ==> src.is_defines(texts((#[trigger] g.defines@[c])@), c)
    &&& forall|c: int| 0 <= c < n ==> src.is_depends_on((#[trigger] g.depends_on@[c])@, c)
}

/// Build the graph over the added lines of every class: what the change introduces,
/// and what the changed code now calls. `parsed` holds the symbols of each file of
/// the view that was read.
pub fn build(view: &DiffView, partition: &Partition, parsed: &Vec<Option<FileSymbols>>) -> (r:
    ClassGraph)
    requires
        view.wf(),
        parsed@.len() == view.files@.len(),
        forall|c: int, i: int|
            0 <= c < partition.classes@.len() && 0 <= i < partition.classes@[c]@.len() ==> (
            #[trigger] partition.classes@[c]@[i]) < view.hunks@.len(),
    ensures
        is_graph(view, partition, parsed@, r),
{
    let ghost src = Source { view: *view, parsed: parsed@, classes: partition.classes@ };
    let n = partition.classes.len();
    let mut defs: Vec<Vec<Key>> = Vec::new();
    for c in 0..n
        invariant
            view.wf(),
            parsed@.len() == view.files@.len(),
            n == partition.classes@.len(),
            forall|c: int, i: int|
                0 <= c < partition.classes@.len() && 0 <= i < partition.classes@[c]@.len() ==> (
                #[trigger] partition.classes@[c]@[i]) < view.hunks@.len(),
            src == (Source { view: *view, parsed: parsed@, classes: partition.classes@ }),
            defs@.len() == c,
            forall|k: int|
                0 <= k < c ==> key_views((#[trigger] defs@[k])@) == src.keys(k, true),
    {
        defs.push(collect_keys(view, parsed, &partition.classes[c], true));
    }
    let mut defines: Vec<Vec<String>> = Vec::new();
    let mut depends_on: Vec<Vec<ClassEdge>> = Vec::new();
    for c in 0..n
        invariant
            view.wf(),
            parsed@.len() == view.files@.len(),
            n == partition.classes@.len(),
            forall|c: int, i: int|
                0 <= c < partition.classes@.len() && 0 <= i < partition.classes@[c]@.len() ==> (
                #[trigger] partition.classes@[c]@[i]) < view.hunks@.len(),
            src == (Source { view: *view, parsed: parsed@, classes: partition.classes@ }),
            defs@.len() == n,
            forall|k: int|
                0 <= k < n ==> key_views((#[trigger] defs@[k])@) == src.keys(k, true),
            defines@.len() == c,
            depends_on@.len() == c,
            forall|k: int|
                0 <= k < c ==> src.is_defines(texts((#[trigger] defines@[k])@), k),
            forall|k: int|
                0 <= k < c ==> src.is_depends_on((#[trigger] depends_on@[k])@, k),
    {
        defines.push(names_of(&defs[c]));
        let refs = collect_keys(view, parsed, &partition.classes[c], false);
        let edges = edges_of(&defs, &refs, c, Ghost(src));
        depends_on.push(edges);
    }
    ClassGraph { defines, depends_on }
}

/// The names of keys, sorted, each once.
fn names_of(keys: &Vec<Key>) -> (r: Vec<String>)
    ensures
        is_sorted_set(
            texts(r@),
            key_views(keys@).map_values(|k: (Option<usize>, Seq<u8>)| lossy_text(k.1)),
        ),
{
    let ghost want = key_views(keys@).map_values(
        |k: (Option<usize>, Seq<u8>)| lossy_text(k.1),
    );
    let mut names: Vec<String> = Vec::new();
    for i in 0..keys.len()
        invariant
            want == key_views(keys@).map_values(
                |k: (Option<usize>, Seq<u8>)| lossy_text(k.1),
            ),
            names@.len() == i,
            forall|k: int| 0 <= k < i ==> (#[trigger] names@[k])@ == want[k],
    {
        names.push(lossy(keys[i].name.as_slice()));
    }
    assert(texts(names@) =~= want);
    sort_set(&names)
}

/// The edges of a class.
fn edges_of(defs: &Vec<Vec<Key>>, refs: &Vec<Key>, from: usize, Ghost(src): Ghost<Source>) -> (r:
    Vec<ClassEdge>)
    requires
        from < defs@.len(),
        defs@.len() == src.classes.len(),
        forall|c: int|
            0 <= c < defs@.len() ==> key_views((#[trigger] defs@[c])@) == src.keys(c, true),
        key_views(refs@) == src.keys(from as int, false),
    ensures
        src.is_depends_on(r@, from as int),
{
    let mut found: Vec<Option<usize>> = Vec::new();
    for i in 0..refs.len()
        invariant
            defs@.len() == src.classes.len(),
            forall|c: int|
                0 <= c < defs@.len() ==> key_views((#[trigger] defs@[c])@) == src.keys(c, true),
            found@.len() == i,
            forall|i: int|
                0 <= i < found@.len() ==> match #[trigger] found@[i] {
                    Some(c) => src.sole_definer(key_view(refs@[i]), c as int),
                    None => forall|c: int| !src.sole_definer(key_view(refs@[i]), c),
                },
    {
        found.push(sole(defs, &refs[i], Ghost(src)));
    }
    let mut out: Vec<ClassEdge> = Vec::new();
    let ghost mut targets: Seq<int> = Seq::empty();
    for to in 0..defs.len()
        invariant
            defs@.len() == src.classes.len(),
            from < defs@.len(),
            found@.len() == refs@.len(),
            key_views(refs@) == src.keys(from as int, false),
            forall|i: int|
                0 <= i < found@.len() ==> match #[trigger] found@[i] {
                    Some(c) => src.sole_definer(key_view(refs@[i]), c as int),
                    None => forall|c: int| !src.sole_definer(key_view(refs@[i]), c),
                },
            src.are_edges(out@, targets, from as int, to as int),
    {
        let ghost was = targets;
        let ghost edges = out@;
        if to != from {
            match edge(refs, &found, from, to, Ghost(src)) {
                Some(e) => {
                    out.push(e);
                    proof {
                        targets = targets.push(to as int);
                        assert(targets[was.len() as int] == to);
                        assert forall|i: int| 0 <= i < targets.len() implies 0
                            <= #[trigger] targets[i] < to + 1 && src.is_edge(
                            out@[i],
                            from as int,
                            targets[i],
                        ) by {
                            if i < was.len() {
                                assert(targets[i] == was[i]);
                                assert(out@[i] == edges[i]);
                            }
                        }
                    }
                },
                None => {},
            }
        } else {
            assert(!src.consumes(from as int, to as int));
        }
        proof {
            assert forall|t: int| 0 <= t < to + 1 && #[trigger] src.consumes(
                from as int,
                t,
            ) implies targets.contains(t) by {
                if t < to {
                    assert(was.contains(t));
                    let k = choose|k: int| 0 <= k < was.len() && was[k] == t;
                    assert(targets[k] == t);
                }
            }
        }
    }
    out
}

/// The files that can give a symbol: not generated, not binary, no submodule, and
/// with an added line. Only these are read.
pub open spec fn wanted(view: &DiffView, f: FileChange) -> bool {
    gives_symbols(f) && !f.binary && exists|i: int|
        0 <= i < f.hunks@.len() && view.hunks@[(#[trigger] f.hunks@[i]) as int].added@.len() > 0
}

/// The files to read for symbols, in order.
pub fn files_to_read(view: &DiffView) -> (r: Vec<usize>)
    requires
        forall|f: int, i: int|
            0 <= f < view.files@.len() && 0 <= i < view.files@[f].hunks@.len() ==> (
            #[trigger] view.files@[f].hunks@[i]) < view.hunks@.len(),
    ensures
        forall|i: int, j: int| 0 <= i < j < r@.len() ==> r@[i] < r@[j],
        forall|f: usize| #[trigger]
            r@.contains(f) <==> f < view.files@.len() && wanted(view, view.files@[f as int]),
{
    let mut out: Vec<usize> = Vec::new();
    for f in 0..view.files.len()
        invariant
            forall|f: int, i: int|
                0 <= f < view.files@.len() && 0 <= i < view.files@[f].hunks@.len() ==> (
                #[trigger] view.files@[f].hunks@[i]) < view.hunks@.len(),
            forall|i: int| 0 <= i < out@.len() ==> (#[trigger] out@[i]) < f,
            forall|i: int, j: int| 0 <= i < j < out@.len() ==> out@[i] < out@[j],
            forall|x: usize| #[trigger]
                out@.contains(x) <==> x < f && wanted(view, view.files@[x as int]),
    {
        let file = &view.files[f];
        let mut adds = false;
        for i in 0..file.hunks.len()
            invariant
                f < view.files@.len(),
                *file == view.files@[f as int],
                forall|f: int, i: int|
                    0 <= f < view.files@.len() && 0 <= i < view.files@[f].hunks@.len() ==> (
                    #[trigger] view.files@[f].hunks@[i]) < view.hunks@.len(),
                adds == exists|k: int|
                    0 <= k < i && view.hunks@[(#[trigger] file.hunks@[k]) as int].added@.len() > 0,
        {
            assert(view.files@[f as int].hunks@[i as int] < view.hunks@.len());
            if view.hunks[file.hunks[i]].added.len() > 0 {
                adds = true;
                assert(view.hunks@[file.hunks@[i as int] as int].added@.len() > 0);
            }
        }
        let ghost was = out@;
        let yes = file.generated.is_none() && file.submodule.is_none() && !file.binary && adds;
        assert(yes == wanted(view, view.files@[f as int]));
        if yes {
            out.push(f);
        }
        proof {
            assert forall|x: usize| #[trigger]
                out@.contains(x) <==> x < f + 1 && wanted(view, view.files@[x as int]) by {
                if yes {
                    lemma_push_contains(was, f, x);
                }
            }
        }
    }
    out
}

/// Whether a reader may answer so for the symbols of a file.
pub open spec fn symbols_answer<S: SymbolReader>(
    readers: &S,
    path: Seq<u8>,
    content: Seq<u8>,
    answer: Option<FileSymbols>,
) -> bool {
    exists|p: &[u8], c: &[u8]|
        p@ == path && c@ == content && #[trigger] call_ensures(
            S::of_file,
            (readers, p, c),
            answer,
        )
}

/// Whether symbols are those of a file at the head: of a file that can give one,
/// what the reader finds in its content there; of any other, none.
pub open spec fn is_parsed<G: ObjectReader, S: SymbolReader>(
    git: &G,
    readers: &S,
    head: Seq<char>,
    view: &DiffView,
    f: FileChange,
    symbols: Option<FileSymbols>,
) -> bool {
    if wanted(view, f) {
        exists|content: Option<Vec<u8>>|
            {
                &&& #[trigger] blob_answer(git, head, f.path@, Ok(content))
                &&& match content {
                    Some(c) => symbols_answer(readers, f.path@, c@, symbols),
                    None => symbols is None,
                }
            }
    } else {
        symbols is None
    }
}

/// Whether an answer is the symbols of every file of a view.
pub open spec fn are_parsed<G: ObjectReader, S: SymbolReader>(
    git: &G,
    readers: &S,
    head: Seq<char>,
    view: &DiffView,
    r: Result<Vec<Option<FileSymbols>>, EngineError>,
) -> bool {
    match r {
        Ok(all) => {
            &&& all@.len() == view.files@.len()
            &&& forall|f: int|
                0 <= f < all@.len() ==> is_parsed(
                    git,
                    readers,
                    head,
                    view,
                    view.files@[f],
                    #[trigger] all@[f],
                )
        },
        Err(e) => exists|f: int|
            0 <= f < view.files@.len() && wanted(view, #[trigger] view.files@[f]) && blob_answer(
                git,
                head,
                view.files@[f].path@,
                Err(e),
            ),
    }
}

/// The symbols of one file at the head.
fn parse_file<G: ObjectReader, S: SymbolReader>(
    git: &G,
    readers: &S,
    head: &str,
    view: &DiffView,
    f: &FileChange,
) -> (r: Result<Option<FileSymbols>, EngineError>)
    requires
        wanted(view, *f),
    ensures
        match r {
            Ok(symbols) => is_parsed(git, readers, head@, view, *f, symbols),
            Err(e) => blob_answer(git, head@, f.path@, Err(e)),
        },
{
    let path = f.path.as_slice();
    let answer = git.blob(head, path);
    assert(call_ensures(G::blob, (git, head, path), answer));
    assert(blob_answer(git, head@, f.path@, answer));
    match answer {
        Err(e) => Err(e),
        Ok(None) => Ok(None),
        Ok(Some(content)) => {
            let c: &[u8] = content.as_slice();
            let symbols = readers.of_file(path, c);
            assert(call_ensures(S::of_file, (readers, path, c), symbols));
            assert(symbols_answer(readers, f.path@, content@, symbols));
            Ok(symbols)
        },
    }
}

/// Read the symbols of the files of a view at the head: only of files that can give
/// one.
pub fn parse_files<G: ObjectReader, S: SymbolReader>(
    git: &G,
    head: &str,
    view: &DiffView,
    readers: &S,
) -> (r: Result<Vec<Option<FileSymbols>>, EngineError>)
    requires
        forall|f: int, i: int|
            0 <= f < view.files@.len() && 0 <= i < view.files@[f].hunks@.len() ==> (
            #[trigger] view.files@[f].hunks@[i]) < view.hunks@.len(),
    ensures
        are_parsed(git, readers, head@, view, r),
{
    let read = files_to_read(view);
    let mut all: Vec<Option<FileSymbols>> = Vec::new();
    let mut next: usize = 0;
    for f in 0..view.files.len()
        invariant
            forall|i: int, j: int| 0 <= i < j < read@.len() ==> read@[i] < read@[j],
            forall|x: usize| #[trigger]
                read@.contains(x) <==> x < view.files@.len() && wanted(view, view.files@[x as int]),
            next <= read@.len(),
            forall|i: int| 0 <= i < next ==> (#[trigger] read@[i]) < f,
            forall|i: int| next <= i < read@.len() ==> (#[trigger] read@[i]) >= f,
            all@.len() == f,
            forall|k: int|
                0 <= k < f ==> is_parsed(
                    git,
                    readers,
                    head@,
                    view,
                    view.files@[k],
                    #[trigger] all@[k],
                ),
    {
        let ghost had = all@;
        if next < read.len() && read[next] == f {
            assert(read@.contains(f));
            match parse_file(git, readers, head, view, &view.files[f]) {
                Ok(symbols) => {
                    all.push(symbols);
                },
                Err(e) => {
                    return Err(e);
                },
            }
            next = next + 1;
        } else {
            proof {
                if read@.contains(f) {
                    let i = choose|i: int| 0 <= i < read@.len() && read@[i] == f;
                    assert(read@[i] == f);
                    assert(i >= next);
                    assert(read@[next as int] >= f);
                    if next < i {
                        assert(read@[next as int] < read@[i]);
                    }
                }
            }
            all.push(None);
        }
        assert forall|k: int| 0 <= k < f + 1 implies is_parsed(
            git,
            readers,
            head@,
            view,
            view.files@[k],
            #[trigger] all@[k],
        ) by {
            if k < f {
                assert(all@[k] == had[k]);
            }
        }
    }
    Ok(all)
}

/// No class is drawn to depend on itself, and an edge leads to a class that defines
/// each of the names that draw it.
pub proof fn law_an_edge_leads_to_the_only_definer(
    src: Source,
    e: ClassEdge,
    from: int,
    to: int,
    name: Seq<char>,
)
    requires
        src.is_edge(e, from, to),
        texts(e.via@).contains(name),
    ensures
        from != to,
        exists|k: (Option<usize>, Seq<u8>)| #[trigger]
            src.sole_definer(k, to) && lossy_text(k.1) == name && src.keys(from, false).contains(k),
{
    assert(src.drawn_by(from, to, name));
    let keys = src.keys(from, false);
    let i = choose|i: int|
        0 <= i < keys.len() && src.sole_definer(#[trigger] keys[i], to) && lossy_text(keys[i].1)
            == name;
    assert(keys.contains(keys[i]));
}

/// Whether a table of symbols gives a name on a line that a hunk adds: a name that
/// reaches other files where `file` is none, one that only that file knows otherwise.
pub open spec fn table_says(
    h: Hunk,
    table: Seq<Vec<Symbol>>,
    file: Option<usize>,
    name: Seq<u8>,
) -> bool {
    exists|at: int, i: int|
        {
            &&& 0 <= at < table.len()
            &&& h.new_start <= at + 1 < h.new_start + h.added@.len()
            &&& 0 <= i < table[at]@.len()
            &&& (#[trigger] table[at]@[i]).name@ == name
            &&& match file {
                None => table[at]@[i].scope == Scope::Global,
                Some(f) => table[at]@[i].scope == Scope::File && h.file == f,
            }
        }
}

/// Whether a hunk stands in a file that is neither generated nor a submodule, and one
/// of the lines it adds declares, or mentions, a name.
pub open spec fn added_line_says(
    view: &DiffView,
    parsed: Seq<Option<FileSymbols>>,
    h: Hunk,
    declares: bool,
    file: Option<usize>,
    name: Seq<u8>,
) -> bool {
    let f = view.files@[h.file as int];
    &&& f.generated is None
    &&& f.submodule is None
    &&& parsed[h.file as int] is Some
    &&& declares ==> table_says(h, parsed[h.file as int]->0.defines@, file, name)
    &&& !declares ==> table_says(h, parsed[h.file as int]->0.references@, file, name)
}

/// Whether a hunk of a class declares, or mentions, a name on a line it adds.
pub open spec fn class_says(
    view: &DiffView,
    parsed: Seq<Option<FileSymbols>>,
    members: Seq<usize>,
    declares: bool,
    file: Option<usize>,
    name: Seq<u8>,
) -> bool {
    exists|m: int|
        0 <= m < members.len() && added_line_says(
            view,
            parsed,
            view.hunks@[(#[trigger] members[m]) as int],
            declares,
            file,
            name,
        )
}

/// Whether a class mentions a name that another one declares, and no third one does.
pub open spec fn calls_into(
    view: &DiffView,
    parsed: Seq<Option<FileSymbols>>,
    classes: Seq<Vec<usize>>,
    from: int,
    to: int,
    file: Option<usize>,
    name: Seq<u8>,
) -> bool {
    &&& from != to
    &&& class_says(view, parsed, classes[from]@, false, file, name)
    &&& class_says(view, parsed, classes[to]@, true, file, name)
    &&& forall|other: int|
        0 <= other < classes.len() && other != to ==> !class_says(
            view,
            parsed,
            (#[trigger] classes[other])@,
            true,
            file,
            name,
        )
}

/// The keys of lines are those of the symbols on them.
proof fn lemma_line_keys(
    rows: Seq<Vec<Symbol>>,
    file: usize,
    start: int,
    k: nat,
    key: (Option<usize>, Seq<u8>),
)
    ensures
        line_keys(rows, file, start, k).contains(key) <==> exists|at: int, i: int|
            0 <= at < rows.len() && start <= at + 1 < start + k && 0 <= i < rows[at]@.len()
                && key_of(file, #[trigger] rows[at]@[i]) == key,
    decreases k,
{
    if k > 0 {
        let before = line_keys(rows, file, start, (k - 1) as nat);
        let row = symbols_at(rows, start + k - 1);
        let last = row.map_values(|s: Symbol| key_of(file, s));
        let all = line_keys(rows, file, start, k);
        lemma_line_keys(rows, file, start, (k - 1) as nat, key);
        assert(all == before + last);
        if all.contains(key) {
            let j = choose|j: int| 0 <= j < all.len() && all[j] == key;
            if j < before.len() {
                assert(before[j] == key);
            } else {
                let i = j - before.len();
                assert(last[i] == key);
                assert(key_of(file, rows[start + k - 2]@[i]) == key);
            }
        }
        if exists|at: int, i: int|
            0 <= at < rows.len() && start <= at + 1 < start + k && 0 <= i < rows[at]@.len()
                && key_of(file, #[trigger] rows[at]@[i]) == key {
            let (at, i) = choose|at: int, i: int|
                0 <= at < rows.len() && start <= at + 1 < start + k && 0 <= i < rows[at]@.len()
                    && key_of(file, #[trigger] rows[at]@[i]) == key;
            if at + 1 < start + k - 1 {
                assert(before.contains(key));
                let j = choose|j: int| 0 <= j < before.len() && before[j] == key;
                assert(all[j] == key);
            } else {
                assert(last[i] == key);
                assert(all[before.len() + i] == key);
            }
        }
    }
}

/// The keys of a hunk are the names its added lines say.
proof fn lemma_hunk_keys(
    view: &DiffView,
    parsed: Seq<Option<FileSymbols>>,
    h: Hunk,
    defines: bool,
    key: (Option<usize>, Seq<u8>),
)
    ensures
        hunk_keys(view, parsed, h, defines).contains(key) <==> added_line_says(
            view,
            parsed,
            h,
            defines,
            key.0,
            key.1,
        ),
{
    if let Some(fs) = parsed[h.file as int] {
        let rows = fs.rows(defines);
        lemma_line_keys(rows, h.file, h.new_start as int, h.added@.len(), key);
        if added_line_says(view, parsed, h, defines, key.0, key.1) {
            let (at, i) = choose|at: int, i: int|
                0 <= at < rows.len() && h.new_start <= at + 1 < h.new_start + h.added@.len() && 0
                    <= i < rows[at]@.len() && (#[trigger] rows[at]@[i]).name@ == key.1
                    && match key.0 {
                    None => rows[at]@[i].scope == Scope::Global,
                    Some(f) => rows[at]@[i].scope == Scope::File && h.file == f,
                };
            assert(key_of(h.file, rows[at]@[i]) == key);
        }
    }
}

/// The keys of a class are the names that its hunks say.
proof fn lemma_class_keys(
    view: &DiffView,
    parsed: Seq<Option<FileSymbols>>,
    members: Seq<usize>,
    defines: bool,
    k: nat,
    key: (Option<usize>, Seq<u8>),
)
    requires
        k <= members.len(),
    ensures
        class_keys(view, parsed, members, defines, k).contains(key) <==> class_says(
            view,
            parsed,
            members.take(k as int),
            defines,
            key.0,
            key.1,
        ),
    decreases k,
{
    let taken = members.take(k as int);
    if k > 0 {
        let fewer = members.take(k - 1);
        let before = class_keys(view, parsed, members, defines, (k - 1) as nat);
        let h = view.hunks@[members[k - 1] as int];
        let last = hunk_keys(view, parsed, h, defines);
        let all = class_keys(view, parsed, members, defines, k);
        lemma_class_keys(view, parsed, members, defines, (k - 1) as nat, key);
        lemma_hunk_keys(view, parsed, h, defines, key);
        assert(all == before + last);
        assert(taken[k - 1] == members[k - 1]);
        if all.contains(key) {
            let j = choose|j: int| 0 <= j < all.len() && all[j] == key;
            if j < before.len() {
                assert(before[j] == key);
                let m = choose|m: int|
                    0 <= m < fewer.len() && added_line_says(
                        view,
                        parsed,
                        view.hunks@[(#[trigger] fewer[m]) as int],
                        defines,
                        key.0,
                        key.1,
                    );
                assert(taken[m] == fewer[m]);
            } else {
                assert(last[j - before.len()] == key);
            }
        }
        if class_says(view, parsed, taken, defines, key.0, key.1) {
            let m = choose|m: int|
                0 <= m < taken.len() && added_line_says(
                    view,
                    parsed,
                    view.hunks@[(#[trigger] taken[m]) as int],
                    defines,
                    key.0,
                    key.1,
                );
            if m < k - 1 {
                assert(fewer[m] == taken[m]);
                let j = choose|j: int| 0 <= j < before.len() && before[j] == key;
                assert(all[j] == key);
            } else {
                let j = choose|j: int| 0 <= j < last.len() && last[j] == key;
                assert(all[before.len() + j] == key);
            }
        }
    }
}

/// Two numbers in decimal are two texts.
proof fn lemma_decimal_tells(a: nat, b: nat)
    requires
        seq!['C'] + decimal(a) == seq!['C'] + decimal(b),
    ensures
        a == b,
{
    let (x, y) = (seq!['C'] + decimal(a), seq!['C'] + decimal(b));
    assert(x.skip(1) =~= decimal(a));
    assert(y.skip(1) =~= decimal(b));
    let max = if a < b {
        b
    } else {
        a
    };
    law_decimal_round_trip(a, max);
    law_decimal_round_trip(b, max);
}

/// What draws an edge is what one class calls of another.
proof fn lemma_drawn(src: Source, from: int, to: int, text: Seq<char>)
    requires
        0 <= from < src.classes.len(),
        0 <= to < src.classes.len(),
    ensures
        src.drawn_by(from, to, text) <==> exists|file: Option<usize>, name: Seq<u8>| #[trigger]
            calls_into(&src.view, src.parsed, src.classes, from, to, file, name) && lossy_text(name)
                == text,
{
    assert forall|c: int, defines: bool, key: (Option<usize>, Seq<u8>)|
        0 <= c < src.classes.len() implies (#[trigger] src.keys(c, defines).contains(key)
        <==> class_says(&src.view, src.parsed, src.classes[c]@, defines, key.0, key.1)) by {
        let members = src.classes[c]@;
        lemma_class_keys(&src.view, src.parsed, members, defines, members.len(), key);
        assert(members.take(members.len() as int) =~= members);
    }
    let keys = src.keys(from, false);
    if src.drawn_by(from, to, text) {
        let i = choose|i: int|
            0 <= i < keys.len() && src.sole_definer(#[trigger] keys[i], to) && lossy_text(keys[i].1)
                == text;
        let key = keys[i];
        assert(keys.contains(key));
        assert forall|other: int| 0 <= other < src.classes.len() && other != to implies !class_says(
            &src.view,
            src.parsed,
            (#[trigger] src.classes[other])@,
            true,
            key.0,
            key.1,
        ) by {
            assert(!src.defined_by(key, other));
        }
        assert(calls_into(&src.view, src.parsed, src.classes, from, to, key.0, key.1));
    }
    if exists|file: Option<usize>, name: Seq<u8>| #[trigger]
        calls_into(&src.view, src.parsed, src.classes, from, to, file, name) && lossy_text(name)
            == text {
        let (file, name) = choose|file: Option<usize>, name: Seq<u8>| #[trigger]
            calls_into(&src.view, src.parsed, src.classes, from, to, file, name) && lossy_text(name)
                == text;
        let key = (file, name);
        assert(keys.contains(key));
        let i = choose|i: int| 0 <= i < keys.len() && keys[i] == key;
        assert(src.defined_by(key, to));
        assert forall|other: int| #[trigger] src.defined_by(key, other) implies other == to by {
            if other != to {
                assert(!class_says(&src.view, src.parsed, src.classes[other]@, true, file, name));
            }
        }
        assert(src.sole_definer(keys[i], to));
    }
}

/// A class depends on another one exactly where a line that it adds mentions a name
/// that the other declares on a line it adds, and no third class does. The edge names
/// those names, and no others. A name that only its file knows meets itself alone.
pub proof fn law_an_edge_follows_a_name(
    view: &DiffView,
    partition: &Partition,
    parsed: &Vec<Option<FileSymbols>>,
    g: ClassGraph,
    from: int,
    to: int,
)
    requires
        call_ensures(build, (view, partition, parsed), g),
        0 <= from < partition.classes@.len(),
        0 <= to < partition.classes@.len(),
    ensures
        g.depends_on@.len() == partition.classes@.len(),
        (exists|e: int|
            0 <= e < g.depends_on@[from]@.len() && (#[trigger] g.depends_on@[from]@[e]).on@ == seq![
                'C',
            ] + decimal(to as nat)) <==> exists|file: Option<usize>, name: Seq<u8>| #[trigger]
            calls_into(view, parsed@, partition.classes@, from, to, file, name),
        forall|e: int, text: Seq<char>|
            0 <= e < g.depends_on@[from]@.len() && g.depends_on@[from]@[e].on@ == seq!['C']
                + decimal(to as nat) ==> (#[trigger] texts(g.depends_on@[from]@[e].via@).contains(
                text,
            ) <==> exists|file: Option<usize>, name: Seq<u8>| #[trigger]
                calls_into(view, parsed@, partition.classes@, from, to, file, name) && lossy_text(
                    name,
                ) == text),
{
    let src = Source { view: *view, parsed: parsed@, classes: partition.classes@ };
    let n = partition.classes@.len() as int;
    let edges = g.depends_on@[from]@;
    assert(is_graph(view, partition, parsed@, g));
    assert(src.is_depends_on(edges, from));
    let targets = choose|targets: Seq<int>| #[trigger] src.are_edges(edges, targets, from, n);
    let on = seq!['C'] + decimal(to as nat);
    assert forall|e: int| 0 <= e < edges.len() && (#[trigger] edges[e]).on@ == on implies targets[e]
        == to by {
        assert(src.is_edge(edges[e], from, targets[e]));
        lemma_decimal_tells(targets[e] as nat, to as nat);
    }
    assert forall|e: int, text: Seq<char>|
        0 <= e < edges.len() && edges[e].on@ == on implies (#[trigger] texts(edges[e].via@).contains(
        text,
    ) <==> exists|file: Option<usize>, name: Seq<u8>| #[trigger]
        calls_into(view, parsed@, partition.classes@, from, to, file, name) && lossy_text(name)
            == text) by {
        assert(targets[e] == to);
        lemma_drawn(src, from, to, text);
    }
    if exists|e: int| 0 <= e < edges.len() && (#[trigger] edges[e]).on@ == on {
        let e = choose|e: int| 0 <= e < edges.len() && (#[trigger] edges[e]).on@ == on;
        assert(targets[e] == to);
        assert(src.consumes(from, to));
        let text = choose|text: Seq<char>| #[trigger] src.drawn_by(from, to, text);
        lemma_drawn(src, from, to, text);
    }
    if exists|file: Option<usize>, name: Seq<u8>| #[trigger]
        calls_into(view, parsed@, partition.classes@, from, to, file, name) {
        let (file, name) = choose|file: Option<usize>, name: Seq<u8>| #[trigger]
            calls_into(view, parsed@, partition.classes@, from, to, file, name);
        lemma_drawn(src, from, to, lossy_text(name));
        assert(calls_into(&src.view, src.parsed, src.classes, from, to, file, name));
        assert(src.drawn_by(from, to, lossy_text(name)));
        assert(src.consumes(from, to));
        let e = choose|e: int| 0 <= e < targets.len() && targets[e] == to;
        assert(src.is_edge(edges[e], from, targets[e]));
    }
}

/// A class defines the names that the lines it adds declare, in files that are neither
/// generated nor submodules.
pub proof fn law_a_class_defines_what_it_adds(
    view: &DiffView,
    partition: &Partition,
    parsed: &Vec<Option<FileSymbols>>,
    g: ClassGraph,
    c: int,
    text: Seq<char>,
)
    requires
        call_ensures(build, (view, partition, parsed), g),
        0 <= c < partition.classes@.len(),
    ensures
        g.defines@.len() == partition.classes@.len(),
        texts(g.defines@[c]@).contains(text) <==> exists|file: Option<usize>, name: Seq<u8>|
            #[trigger] class_says(view, parsed@, partition.classes@[c]@, true, file, name)
                && lossy_text(name) == text,
{
    let src = Source { view: *view, parsed: parsed@, classes: partition.classes@ };
    let members = partition.classes@[c]@;
    let keys = src.keys(c, true);
    let names = keys.map_values(|k: (Option<usize>, Seq<u8>)| lossy_text(k.1));
    assert(is_graph(view, partition, parsed@, g));
    assert(src.is_defines(texts(g.defines@[c]@), c));
    assert(members.take(members.len() as int) =~= members);
    if names.contains(text) {
        let i = choose|i: int| 0 <= i < names.len() && names[i] == text;
        assert(keys.contains(keys[i]));
        lemma_class_keys(view, parsed@, members, true, members.len(), keys[i]);
    }
    if exists|file: Option<usize>, name: Seq<u8>| #[trigger]
        class_says(view, parsed@, members, true, file, name) && lossy_text(name) == text {
        let (file, name) = choose|file: Option<usize>, name: Seq<u8>| #[trigger]
            class_says(view, parsed@, members, true, file, name) && lossy_text(name) == text;
        lemma_class_keys(view, parsed@, members, true, members.len(), (file, name));
        let i = choose|i: int| 0 <= i < keys.len() && keys[i] == (file, name);
        assert(names[i] == text);
    }
}

} // verus!
