//! The symbol index: which token on which line resolves to which declaration.
//!
//! Built from the same parse as the graph. It never feeds the ordering: a wrong
//! entry here shows a reader the wrong snippet, which they can see is wrong; it
//! cannot move a group. A definition must be unambiguous, and a use is recorded
//! wherever it appears in a parsed file.
use vstd::prelude::*;

use super::symbols::Site;
use crate::model::DiffView;
use crate::schema::{SymbolDef, SymbolIndex, SymbolUse};
use crate::seqs::{
    bytes_less, bytes_lt, is_order, is_stable_order, lemma_bytes_order, lemma_stable_exists,
    stable_before, stable_order, stable_perm,
};
use crate::text::{decimal, lossy, lossy_text, push_decimal};

verus! {

/// One unambiguous declaration, before it is given an id.
#[derive(Debug, Clone)]
pub struct Definition {
    pub name: Vec<u8>,
    /// Index of the file in the view.
    pub file: usize,
    /// New-side line, counting from 1.
    pub line: u32,
    pub site: Site,
    /// Index of the class in the partition.
    pub class: usize,
}

/// One token that resolves to a [`Definition`].
#[derive(Debug, Clone)]
pub struct Use {
    /// Index of the definition.
    pub def: usize,
    pub file: usize,
    pub line: u32,
    pub site: Site,
}

/// Whether a declaration stands before another: by file, line, column and name.
pub open spec fn def_before(a: Definition, b: Definition) -> bool {
    if a.file != b.file {
        a.file < b.file
    } else if a.line != b.line {
        a.line < b.line
    } else if a.site.start != b.site.start {
        a.site.start < b.site.start
    } else {
        bytes_lt(a.name@, b.name@)
    }
}

/// Whether a use stands before another: by the new number of its declaration, then
/// by file, line and column.
pub open spec fn use_before(a: Use, ra: int, b: Use, rb: int) -> bool {
    if ra != rb {
        ra < rb
    } else if a.file != b.file {
        a.file < b.file
    } else if a.line != b.line {
        a.line < b.line
    } else {
        a.site.start < b.site.start
    }
}

/// The order of the declarations: the place each number had before.
pub open spec fn def_order(defs: Seq<Definition>) -> Seq<usize> {
    stable_perm(defs.len() as int, |i: int, j: int| def_before(defs[i], defs[j]))
}

/// The new number of a declaration.
pub open spec fn rank_of(defs: Seq<Definition>, d: int) -> int {
    choose|p: int| 0 <= p < defs.len() && def_order(defs)[p] == d
}

/// The order of the uses.
pub open spec fn use_order(defs: Seq<Definition>, uses: Seq<Use>) -> Seq<usize> {
    stable_perm(
        uses.len() as int,
        |i: int, j: int|
            use_before(
                uses[i],
                rank_of(defs, uses[i].def as int),
                uses[j],
                rank_of(defs, uses[j].def as int),
            ),
    )
}

/// The id of the declaration with a number.
pub open spec fn symbol_id(n: int) -> Seq<char> {
    seq!['s'] + decimal(n as nat)
}

/// Whether an entry is the one of a declaration. A declaration without a known
/// extent runs to its own line.
pub open spec fn is_def(e: SymbolDef, d: Definition, n: int, view: &DiffView) -> bool {
    &&& e.id@ == symbol_id(n)
    &&& e.name@ == lossy_text(d.name@)
    &&& e.file@ == lossy_text(view.files@[d.file as int].path@)
    &&& e.line == d.line
    &&& e.through == (if d.site.through == 0 {
        d.line
    } else {
        d.site.through
    })
    &&& e.start == d.site.start
    &&& e.end == d.site.end
    &&& e.class@ == seq!['C'] + decimal(d.class as nat)
}

/// Whether an entry is the one of a use.
pub open spec fn is_use(e: SymbolUse, u: Use, n: int, view: &DiffView) -> bool {
    &&& e.on@ == symbol_id(n)
    &&& e.file@ == lossy_text(view.files@[u.file as int].path@)
    &&& e.line == u.line
    &&& e.start == u.site.start
    &&& e.end == u.site.end
}

fn numbered(letter: char, n: usize) -> (r: String)
    ensures
        r@ == seq![letter] + decimal(n as nat),
{
    let mut out = String::new();
    out.push(letter);
    push_decimal(&mut out, n as u64);
    assert(out@ =~= seq![letter] + decimal(n as nat));
    out
}

fn def_less(a: &Definition, b: &Definition) -> (r: bool)
    ensures
        r == def_before(*a, *b),
{
    if a.file != b.file {
        a.file < b.file
    } else if a.line != b.line {
        a.line < b.line
    } else if a.site.start != b.site.start {
        a.site.start < b.site.start
    } else {
        bytes_less(a.name.as_slice(), b.name.as_slice())
    }
}

proof fn lemma_def_order(defs: Seq<Definition>)
    ensures
        is_order(defs.len() as int, |i: int, j: int| def_before(defs[i], defs[j])),
{
    let lt = |i: int, j: int| def_before(defs[i], defs[j]);
    assert forall|i: int| !#[trigger] lt(i, i) by {
        lemma_bytes_order(defs[i].name@, defs[i].name@, defs[i].name@);
    }
    assert forall|i: int, j: int, k: int| #[trigger] lt(i, j) && #[trigger] lt(j, k) implies lt(
        i,
        k,
    ) by {
        lemma_bytes_order(defs[i].name@, defs[j].name@, defs[k].name@);
    }
    assert forall|i: int, j: int, k: int| #[trigger] lt(i, k) implies #[trigger] lt(i, j) || lt(
        j,
        k,
    ) by {
        lemma_bytes_order(defs[i].name@, defs[j].name@, defs[k].name@);
    }
}

/// The new number of each declaration.
fn ranks(defs: &Vec<Definition>, order: &Vec<usize>) -> (r: Vec<usize>)
    requires
        order@ == def_order(defs@),
        is_stable_order(
            defs@.len() as int,
            |i: int, j: int| def_before(defs@[i], defs@[j]),
            order@,
        ),
    ensures
        r@.len() == defs@.len(),
        forall|d: int| 0 <= d < r@.len() ==> (#[trigger] r@[d]) == rank_of(defs@, d) && r@[d]
            < defs@.len(),
{
    let ghost lt = |i: int, j: int| def_before(defs@[i], defs@[j]);
    let n = defs.len();
    let mut rank: Vec<usize> = Vec::new();
    for d in 0..n
        invariant
            rank@.len() == d,
    {
        rank.push(0);
    }
    for k in 0..n
        invariant
            n == defs@.len(),
            rank@.len() == n,
            lt == (|i: int, j: int| def_before(defs@[i], defs@[j])),
            is_stable_order(n as int, lt, order@),
            forall|a: int| 0 <= a < k ==> rank@[#[trigger] order@[a] as int] == a,
    {
        let d = order[k];
        proof {
            assert forall|a: int| 0 <= a < k implies #[trigger] order@[a] != d by {
                assert(stable_before(lt, order@[a] as int, order@[k as int] as int));
                lemma_def_order(defs@);
            }
        }
        rank.set(d, k);
    }
    proof {
        assert forall|d: int| 0 <= d < n implies (#[trigger] rank@[d]) == rank_of(defs@, d)
            && rank@[d] < n by {
            assert(order@.contains(d as usize));
            let a = choose|a: int| 0 <= a < order@.len() && order@[a] == d as usize;
            assert(rank@[order@[a] as int] == a);
            assert(def_order(defs@)[a] == d);
            let p = rank_of(defs@, d);
            assert(0 <= p < n && order@[p] == d);
            assert(rank@[order@[p] as int] == p);
        }
    }
    rank
}

/// Shape resolved definitions and uses into the document's index.
///
/// Ids are positional and assigned here in location order: the rows reach a
/// document that is hashed, so their order must not turn on how they were found.
pub fn build(view: &DiffView, definitions: &Vec<Definition>, uses: &Vec<Use>) -> (r: SymbolIndex)
    requires
        forall|i: int|
            0 <= i < definitions@.len() ==> (#[trigger] definitions@[i]).file < view.files@.len(),
        forall|i: int|
            0 <= i < uses@.len() ==> (#[trigger] uses@[i]).file < view.files@.len() && uses@[i].def
                < definitions@.len(),
    ensures
        r.definitions@.len() == definitions@.len(),
        forall|n: int|
            0 <= n < r.definitions@.len() ==> is_def(
                #[trigger] r.definitions@[n],
                definitions@[def_order(definitions@)[n] as int],
                n,
                view,
            ),
        r.uses@.len() == uses@.len(),
        forall|k: int|
            0 <= k < r.uses@.len() ==> ({
                let u = uses@[use_order(definitions@, uses@)[k] as int];
                is_use(#[trigger] r.uses@[k], u, rank_of(definitions@, u.def as int), view)
            }),
{
    let ghost defs = definitions@;
    let ghost lt = |i: int, j: int| def_before(defs[i], defs[j]);
    let less = |i: usize, j: usize| -> (r: bool)
        requires
            i < definitions@.len(),
            j < definitions@.len(),
        ensures
            r == def_before(definitions@[i as int], definitions@[j as int]),
        { def_less(&definitions[i], &definitions[j]) };
    proof {
        lemma_def_order(defs);
    }
    let order = stable_order(definitions.len(), less, Ghost(lt));
    let rank = ranks(definitions, &order);
    let n = definitions.len();
    let mut out: Vec<SymbolDef> = Vec::new();
    for k in 0..n
        invariant
            n == defs.len(),
            defs == definitions@,
            order@ == def_order(defs),
            order@.len() == n,
            forall|a: int| 0 <= a < n ==> (#[trigger] order@[a]) < n,
            forall|i: int|
                0 <= i < definitions@.len() ==> (#[trigger] definitions@[i]).file
                    < view.files@.len(),
            out@.len() == k,
            forall|a: int|
                0 <= a < k ==> is_def(#[trigger] out@[a], defs[order@[a] as int], a, view),
    {
        let d = &definitions[order[k]];
        out.push(
            SymbolDef {
                id: numbered('s', k),
                name: lossy(d.name.as_slice()),
                file: lossy(view.files[d.file].path.as_slice()),
                line: d.line,
                through: if d.site.through == 0 {
                    d.line
                } else {
                    d.site.through
                },
                start: d.site.start,
                end: d.site.end,
                class: numbered('C', d.class),
            },
        );
    }
    let ghost us = uses@;
    let ghost ult = |i: int, j: int|
        use_before(
            us[i],
            rank_of(defs, us[i].def as int),
            us[j],
            rank_of(defs, us[j].def as int),
        );
    let use_less = |i: usize, j: usize| -> (r: bool)
        requires
            i < uses@.len(),
            j < uses@.len(),
            uses@[i as int].def < rank@.len(),
            uses@[j as int].def < rank@.len(),
        ensures
            r == use_before(
                uses@[i as int],
                rank@[uses@[i as int].def as int] as int,
                uses@[j as int],
                rank@[uses@[j as int].def as int] as int,
            ),
        {
            let a = &uses[i];
            let b = &uses[j];
            let ra: usize = rank[a.def];
            let rb: usize = rank[b.def];
            if ra != rb {
                ra < rb
            } else if a.file != b.file {
                a.file < b.file
            } else if a.line != b.line {
                a.line < b.line
            } else {
                a.site.start < b.site.start
            }
        };
    let placed = stable_order(uses.len(), use_less, Ghost(ult));
    let m = uses.len();
    let mut rows: Vec<SymbolUse> = Vec::new();
    for k in 0..m
        invariant
            m == us.len(),
            us == uses@,
            defs == definitions@,
            placed@ == use_order(defs, us),
            placed@.len() == m,
            forall|a: int| 0 <= a < m ==> (#[trigger] placed@[a]) < m,
            rank@.len() == defs.len(),
            forall|d: int| 0 <= d < rank@.len() ==> (#[trigger] rank@[d]) == rank_of(defs, d),
            forall|i: int|
                0 <= i < uses@.len() ==> (#[trigger] uses@[i]).file < view.files@.len()
                    && uses@[i].def < definitions@.len(),
            rows@.len() == k,
            forall|a: int|
                0 <= a < k ==> ({
                    let u = us[placed@[a] as int];
                    is_use(#[trigger] rows@[a], u, rank_of(defs, u.def as int), view)
                }),
    {
        let u = &uses[placed[k]];
        rows.push(
            SymbolUse {
                on: numbered('s', rank[u.def]),
                file: lossy(view.files[u.file].path.as_slice()),
                line: u.line,
                start: u.site.start,
                end: u.site.end,
            },
        );
    }
    SymbolIndex { definitions: out, uses: rows }
}

/// Whether an entry tells of a declaration: its name, its file, the line it stands on and
/// the last one it runs to, its columns and its class.
pub open spec fn tells_of(e: SymbolDef, d: Definition, view: &DiffView) -> bool {
    &&& e.name@ == lossy_text(d.name@)
    &&& e.file@ == lossy_text(view.files@[d.file as int].path@)
    &&& e.line == d.line
    &&& d.site.through != 0 ==> e.through == d.site.through
    &&& d.site.through == 0 ==> e.through == d.line
    &&& e.start == d.site.start
    &&& e.end == d.site.end
    &&& e.class@ == seq!['C'] + decimal(d.class as nat)
}

/// Every declaration has an entry, numbered by its place. Where two entries are in one
/// file, the one on the earlier line comes first.
pub proof fn law_every_declaration_is_listed(
    view: &DiffView,
    definitions: &Vec<Definition>,
    uses: &Vec<Use>,
    r: SymbolIndex,
    d: int,
)
    requires
        call_ensures(build, (view, definitions, uses), r),
        0 <= d < definitions@.len(),
    ensures
        r.definitions@.len() == definitions@.len(),
        exists|n: int|
            0 <= n < r.definitions@.len() && tells_of(
                #[trigger] r.definitions@[n],
                definitions@[d],
                view,
            ) && r.definitions@[n].id@ == seq!['s'] + decimal(n as nat),
        forall|a: int, b: int|
            0 <= a < b < r.definitions@.len() && (#[trigger] r.definitions@[a]).line > (
            #[trigger] r.definitions@[b]).line ==> exists|i: int, j: int|
                0 <= i < definitions@.len() && 0 <= j < definitions@.len() && (
                #[trigger] definitions@[i]).file < (#[trigger] definitions@[j]).file
                    && definitions@[i].line == r.definitions@[a].line && definitions@[j].line
                    == r.definitions@[b].line,
{
    let defs = definitions@;
    let order = def_order(defs);
    let lt = |i: int, j: int| def_before(defs[i], defs[j]);
    lemma_def_order(defs);
    assert(definitions.len() == defs.len());
    lemma_stable_exists(defs.len(), lt);
    assert(is_stable_order(defs.len() as int, lt, order));
    assert(order.contains(d as usize));
    let n = choose|n: int| 0 <= n < order.len() && order[n] == d as usize;
    assert(is_def(r.definitions@[n], defs[order[n] as int], n, view));
    assert forall|a: int, b: int|
        0 <= a < b < r.definitions@.len() && (#[trigger] r.definitions@[a]).line > (
        #[trigger] r.definitions@[b]).line implies exists|i: int, j: int|
        0 <= i < defs.len() && 0 <= j < defs.len() && (#[trigger] defs[i]).file < (
        #[trigger] defs[j]).file && defs[i].line == r.definitions@[a].line && defs[j].line
            == r.definitions@[b].line by {
        let (i, j) = (order[a] as int, order[b] as int);
        assert(is_def(r.definitions@[a], defs[i], a, view));
        assert(is_def(r.definitions@[b], defs[j], b, view));
        assert(stable_before(lt, i, j));
        assert(lt(i, j) == def_before(defs[i], defs[j]));
        assert(lt(j, i) == def_before(defs[j], defs[i]));
    }
}

/// Every use has an entry at its place that leads to the entry of its declaration.
pub proof fn law_every_use_leads_to_its_declaration(
    view: &DiffView,
    definitions: &Vec<Definition>,
    uses: &Vec<Use>,
    r: SymbolIndex,
    u: int,
)
    requires
        call_ensures(build, (view, definitions, uses), r),
        0 <= u < uses@.len(),
        forall|i: int| 0 <= i < uses@.len() ==> (#[trigger] uses@[i]).def < definitions@.len(),
    ensures
        r.uses@.len() == uses@.len(),
        exists|k: int, n: int|
            {
                &&& 0 <= k < r.uses@.len()
                &&& 0 <= n < r.definitions@.len()
                &&& (#[trigger] r.uses@[k]).on@ == (#[trigger] r.definitions@[n]).id@
                &&& tells_of(r.definitions@[n], definitions@[uses@[u].def as int], view)
                &&& r.uses@[k].file@ == lossy_text(view.files@[uses@[u].file as int].path@)
                &&& r.uses@[k].line == uses@[u].line
                &&& r.uses@[k].start == uses@[u].site.start
                &&& r.uses@[k].end == uses@[u].site.end
            },
{
    let defs = definitions@;
    let us = uses@;
    let order = def_order(defs);
    let lt = |i: int, j: int| def_before(defs[i], defs[j]);
    lemma_def_order(defs);
    assert(definitions.len() == defs.len());
    lemma_stable_exists(defs.len(), lt);
    assert(is_stable_order(defs.len() as int, lt, order));
    let places = use_order(defs, us);
    let lu = |i: int, j: int|
        use_before(us[i], rank_of(defs, us[i].def as int), us[j], rank_of(defs, us[j].def as int));
    assert(uses.len() == us.len());
    assert(is_order(us.len() as int, lu));
    lemma_stable_exists(us.len(), lu);
    assert(is_stable_order(us.len() as int, lu, places));
    assert(places.contains(u as usize));
    let k = choose|k: int| 0 <= k < places.len() && places[k] == u as usize;
    let d = us[u].def as int;
    assert(order.contains(d as usize));
    let p = choose|p: int| 0 <= p < order.len() && order[p] == d as usize;
    assert(def_order(defs)[p] == d);
    let n = rank_of(defs, d);
    assert(0 <= n < defs.len() && order[n] == d);
    assert(is_def(r.definitions@[n], defs[order[n] as int], n, view));
    assert(is_use(r.uses@[k], us[places[k] as int], n, view));
    assert(r.uses@[k].on@ == r.definitions@[n].id@);
}

} // verus!
