//! The symbols of a parsed file: what each line declares and what it mentions.
use vstd::prelude::*;

use crate::lang;
use crate::seqs::{copy_bytes, lemma_push_contains, views};

verus! {

/// How far a name reaches.
#[derive(Debug, Clone, Copy, PartialEq, Eq, Structural)]
pub enum Scope {
    /// The same name read from another file is the same symbol.
    Global,
    /// The name means something in its own file only.
    File,
}

/// One symbol of a line.
#[derive(Debug, Clone)]
pub struct Symbol {
    pub name: Vec<u8>,
    pub scope: Scope,
}

/// Where a token stands on its line, and how far what it declares runs.
#[derive(Debug, Clone, Copy, PartialEq, Eq, Structural)]
pub struct Site {
    pub start: u32,
    pub end: u32,
    /// The last line of the declaration; 0 where no extent is known.
    pub through: u32,
}

/// A file's symbols, one row per new-side line, counted from 1.
#[derive(Debug, Clone)]
pub struct FileSymbols {
    pub defines: Vec<Vec<Symbol>>,
    pub references: Vec<Vec<Symbol>>,
}

impl FileSymbols {
    /// The rows of the declarations, or of the mentions.
    pub open spec fn rows(&self, defines: bool) -> Seq<Vec<Symbol>> {
        if defines {
            self.defines@
        } else {
            self.references@
        }
    }
}

/// The symbols of a line counted from 1: none outside the table.
pub open spec fn symbols_at(rows: Seq<Vec<Symbol>>, line: int) -> Seq<Symbol> {
    if 1 <= line <= rows.len() {
        rows[line - 1]@
    } else {
        Seq::empty()
    }
}

/// The names on a line that reach other files, in order.
pub open spec fn global_names(row: Seq<Symbol>) -> Seq<Seq<u8>>
    decreases row.len(),
{
    if row.len() == 0 {
        Seq::empty()
    } else if row.last().scope == Scope::Global {
        global_names(row.drop_last()).push(row.last().name@)
    } else {
        global_names(row.drop_last())
    }
}

/// Whether rows hold the names that reach other files, line by line.
pub open spec fn are_global(rows: Seq<Vec<Vec<u8>>>, of: Seq<Vec<Symbol>>) -> bool {
    &&& rows.len() == of.len()
    &&& forall|i: int| 0 <= i < rows.len() ==> views((#[trigger] rows[i])@) == global_names(of[i]@)
}

/// Whether symbols are those of a file that reach other files; none of a file that
/// was not read.
pub open spec fn is_reaching(plain: lang::FileSymbols, parsed: Option<FileSymbols>) -> bool {
    match parsed {
        Some(p) => are_global(plain.defines@, p.defines@) && are_global(
            plain.references@,
            p.references@,
        ),
        None => plain.defines@.len() == 0 && plain.references@.len() == 0,
    }
}

fn global_rows(rows: &Vec<Vec<Symbol>>) -> (r: Vec<Vec<Vec<u8>>>)
    ensures
        are_global(r@, rows@),
{
    let mut out: Vec<Vec<Vec<u8>>> = Vec::new();
    for i in 0..rows.len()
        invariant
            out@.len() == i,
            forall|k: int| 0 <= k < i ==> views((#[trigger] out@[k])@) == global_names(rows@[k]@),
    {
        let row = &rows[i];
        let mut names: Vec<Vec<u8>> = Vec::new();
        assert(views(names@) =~= global_names(row@.take(0)));
        for j in 0..row.len()
            invariant
                views(names@) == global_names(row@.take(j as int)),
        {
            let ghost had = views(names@);
            assert(row@.take(j + 1).drop_last() =~= row@.take(j as int));
            if row[j].scope == Scope::Global {
                names.push(copy_bytes(row[j].name.as_slice()));
                assert(views(names@) =~= had.push(row@[j as int].name@));
            }
        }
        assert(row@.take(row@.len() as int) =~= row@);
        out.push(names);
    }
    out
}

/// The symbols of each file that reach other files.
pub fn reaching(parsed: &Vec<Option<FileSymbols>>) -> (r: Vec<lang::FileSymbols>)
    ensures
        r@.len() == parsed@.len(),
        forall|f: int| 0 <= f < r@.len() ==> is_reaching(#[trigger] r@[f], parsed@[f]),
{
    let mut out: Vec<lang::FileSymbols> = Vec::new();
    for f in 0..parsed.len()
        invariant
            out@.len() == f,
            forall|k: int| 0 <= k < f ==> is_reaching(#[trigger] out@[k], parsed@[k]),
    {
        let plain = match &parsed[f] {
            Some(p) => lang::FileSymbols {
                defines: global_rows(&p.defines),
                references: global_rows(&p.references),
            },
            None => lang::FileSymbols { defines: Vec::new(), references: Vec::new() },
        };
        out.push(plain);
    }
    out
}

/// Whether a row of symbols holds a name that reaches other files.
pub open spec fn reaches_out(row: Seq<Symbol>, name: Seq<u8>) -> bool {
    exists|j: int|
        0 <= j < row.len() && (#[trigger] row[j]).name@ == name && row[j].scope == Scope::Global
}

proof fn lemma_global_names(row: Seq<Symbol>, name: Seq<u8>)
    ensures
        global_names(row).contains(name) <==> reaches_out(row, name),
    decreases row.len(),
{
    if row.len() > 0 {
        let fewer = row.drop_last();
        lemma_global_names(fewer, name);
        lemma_push_contains(global_names(fewer), row.last().name@, name);
        if reaches_out(fewer, name) {
            let j = choose|j: int|
                0 <= j < fewer.len() && (#[trigger] fewer[j]).name@ == name && fewer[j].scope
                    == Scope::Global;
            assert(row[j] == fewer[j]);
        }
        if reaches_out(row, name) {
            let j = choose|j: int|
                0 <= j < row.len() && (#[trigger] row[j]).name@ == name && row[j].scope
                    == Scope::Global;
            if j < fewer.len() {
                assert(fewer[j] == row[j]);
            }
        }
        assert(row[row.len() - 1] == row.last());
    }
}

/// Line by line, the names of a file that reach other files are handed on, and no other
/// ones; of a file that was not read there are none.
pub proof fn law_only_names_that_reach_out_are_handed_on(
    parsed: &Vec<Option<FileSymbols>>,
    r: Vec<lang::FileSymbols>,
    f: int,
    line: int,
    name: Seq<u8>,
)
    requires
        call_ensures(reaching, (parsed,), r),
        0 <= f < parsed@.len(),
        0 <= line,
    ensures
        r@.len() == parsed@.len(),
        parsed@[f] is None ==> r@[f].defines@.len() == 0 && r@[f].references@.len() == 0,
        parsed@[f] matches Some(p) ==> {
            &&& r@[f].defines@.len() == p.defines@.len()
            &&& r@[f].references@.len() == p.references@.len()
            &&& line < p.defines@.len() ==> (views(r@[f].defines@[line]@).contains(name)
                <==> reaches_out(p.defines@[line]@, name))
            &&& line < p.references@.len() ==> (views(r@[f].references@[line]@).contains(name)
                <==> reaches_out(p.references@[line]@, name))
        },
{
    assert(is_reaching(r@[f], parsed@[f]));
    if let Some(p) = parsed@[f] {
        if line < p.defines@.len() {
            lemma_global_names(p.defines@[line]@, name);
        }
        if line < p.references@.len() {
            lemma_global_names(p.references@[line]@, name);
        }
    }
}

} // verus!
