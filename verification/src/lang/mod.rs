//! Language abstraction.
//!
//! This module is the seam: a [`Language`] plugin decides how line content is
//! normalised for shape classification, and which symbols a file's lines define
//! and reference. With no plugin registered the generic form applies.
//!
//! Languages never see enumeration: which files and hunks exist is decided
//! before this module is consulted. They only influence *classification*.
use vstd::prelude::*;

use crate::seqs::{join, law_split_undoes_join, split};

pub mod generic;

verus! {

/// A language plugin.
pub trait Language {
    /// The identifier that `id` returns.
    open spec fn name(&self) -> Seq<char> {
        Seq::empty()
    }

    /// Whether `claims` says yes to a path.
    open spec fn covers(&self, path: Seq<u8>) -> bool {
        true
    }

    /// What `normalize_line` makes of a line.
    open spec fn normal_form(&self, line: Seq<u8>) -> Seq<u8> {
        generic::normal_line(line)
    }

    /// Stable identifier, e.g. "generic-v1". Part of the registry fingerprint.
    fn id(&self) -> (r: &'static str)
        ensures
            r@ == self.name(),
    ;

    /// Whether this plugin claims the file (typically by extension or basename).
    fn claims(&self, path: &[u8]) -> (r: bool)
        ensures
            r == self.covers(path@),
    ;

    /// Normalise one line's content for shape classification: erase what varies
    /// between instances of the same edit (identifiers, literals, spacing), keep
    /// what distinguishes different edits. A plugin with no form of its own calls
    /// [`generic::normalize_line`].
    ///
    /// This feeds the shape hash only, never the hunk digest.
    fn normalize_line(&self, line: &[u8]) -> (r: Vec<u8>)
        ensures
            r@ == self.normal_form(line@),
    ;

    /// Every symbol the file defines and references, per line. A plugin that
    /// reads no symbols hands back an empty table: a guess costs more than
    /// silence.
    fn file_symbols(&self, path: &[u8], content: &[u8]) -> FileSymbols {
        FileSymbols { defines: Vec::new(), references: Vec::new() }
    }
}

/// A file's symbols, indexed by new-side line number.
///
/// Both vectors are parallel and one entry per line, so an entry is addressed by
/// the line number a hunk already carries.
#[derive(Debug, Clone)]
pub struct FileSymbols {
    pub defines: Vec<Vec<Vec<u8>>>,
    pub references: Vec<Vec<Vec<u8>>>,
}

impl Default for FileSymbols {
    fn default() -> (r: Self)
        ensures
            r.defines@.len() == 0,
            r.references@.len() == 0,
    {
        FileSymbols { defines: Vec::new(), references: Vec::new() }
    }
}

/// The entries for a line counted from 1: none outside the table.
pub open spec fn row_at(rows: Seq<Vec<Vec<u8>>>, line: int) -> Seq<Vec<u8>> {
    if 1 <= line <= rows.len() {
        rows[line - 1]@
    } else {
        Seq::empty()
    }
}

impl FileSymbols {
    /// How many lines this covers.
    pub fn lines(&self) -> (r: usize)
        ensures
            r == (if self.defines@.len() <= self.references@.len() {
                self.defines@.len()
            } else {
                self.references@.len()
            }),
    {
        if self.defines.len() <= self.references.len() {
            self.defines.len()
        } else {
            self.references.len()
        }
    }

    /// Symbols defined on `line`, counting from 1. Empty when out of range.
    pub fn defines_at(&self, line: u32) -> (r: &[Vec<u8>])
        ensures
            r@ == row_at(self.defines@, line as int),
    {
        at(&self.defines, line)
    }

    /// Symbols referenced on `line`, counting from 1.
    pub fn references_at(&self, line: u32) -> (r: &[Vec<u8>])
        ensures
            r@ == row_at(self.references@, line as int),
    {
        at(&self.references, line)
    }
}

fn at(rows: &Vec<Vec<Vec<u8>>>, line: u32) -> (r: &[Vec<u8>])
    ensures
        r@ == row_at(rows@, line as int),
{
    if line >= 1 && line as usize <= rows.len() {
        rows[line as usize - 1].as_slice()
    } else {
        let none: &[Vec<u8>; 0] = &[];
        assert(none@ =~= Seq::<Vec<u8>>::empty());
        none.as_slice()
    }
}

/// The generic fallback: claims every file, uses the generic normal form.
pub struct Generic;

impl Language for Generic {
    open spec fn name(&self) -> Seq<char> {
        "generic-v1"@
    }

    fn id(&self) -> (r: &'static str) {
        "generic-v1"
    }

    fn claims(&self, _path: &[u8]) -> (r: bool) {
        true
    }

    fn normalize_line(&self, line: &[u8]) -> (r: Vec<u8>) {
        generic::normalize_line(line)
    }
}

/// Ordered set of language plugins with a guaranteed generic fallback.
pub struct LanguageRegistry {
    langs: Vec<Box<dyn Language>>,
    fallback: Generic,
}

impl Default for LanguageRegistry {
    fn default() -> (r: Self)
        ensures
            r.plugins().len() == 0,
    {
        Self::builtin()
    }
}

/// The language that answers for one file: a registered plugin, or the generic
/// fallback.
pub struct Detected<'r> {
    registry: &'r LanguageRegistry,
    plugin: Option<usize>,
}

impl<'r> Detected<'r> {
    /// The plugin's place in the registry; `None` for the fallback.
    pub closed spec fn plugin(&self) -> Option<int> {
        match self.plugin {
            Some(i) => Some(i as int),
            None => None,
        }
    }

    pub closed spec fn registry(&self) -> LanguageRegistry {
        *self.registry
    }

    #[verifier::type_invariant]
    closed spec fn in_range(self) -> bool {
        self.plugin matches Some(i) ==> i < self.registry.langs@.len()
    }
}

impl<'r> Language for Detected<'r> {
    open spec fn name(&self) -> Seq<char> {
        match self.plugin() {
            Some(i) => self.registry().plugins()[i].name(),
            None => Generic.name(),
        }
    }

    open spec fn covers(&self, path: Seq<u8>) -> bool {
        match self.plugin() {
            Some(i) => self.registry().plugins()[i].covers(path),
            None => true,
        }
    }

    open spec fn normal_form(&self, line: Seq<u8>) -> Seq<u8> {
        match self.plugin() {
            Some(i) => self.registry().plugins()[i].normal_form(line),
            None => generic::normal_line(line),
        }
    }

    fn id(&self) -> (r: &'static str) {
        proof {
            use_type_invariant(self);
        }
        match self.plugin {
            Some(i) => self.registry.langs[i].id(),
            None => self.registry.fallback.id(),
        }
    }

    fn claims(&self, path: &[u8]) -> (r: bool) {
        proof {
            use_type_invariant(self);
        }
        match self.plugin {
            Some(i) => self.registry.langs[i].claims(path),
            None => self.registry.fallback.claims(path),
        }
    }

    fn normalize_line(&self, line: &[u8]) -> (r: Vec<u8>) {
        proof {
            use_type_invariant(self);
        }
        match self.plugin {
            Some(i) => self.registry.langs[i].normalize_line(line),
            None => self.registry.fallback.normalize_line(line),
        }
    }

    fn file_symbols(&self, path: &[u8], content: &[u8]) -> FileSymbols {
        proof {
            use_type_invariant(self);
        }
        match self.plugin {
            Some(i) => self.registry.langs[i].file_symbols(path, content),
            None => self.registry.fallback.file_symbols(path, content),
        }
    }
}

impl LanguageRegistry {
    /// The registered plugins, first registered first.
    pub closed spec fn plugins(&self) -> Seq<Box<dyn Language>> {
        self.langs@
    }

    /// The first plugin that claims a path; `None` where none does and the
    /// fallback answers.
    pub open spec fn first_claiming(&self, path: Seq<u8>) -> Option<int> {
        first_claim(self.plugins(), path, 0)
    }

    /// The normal form that applies to the lines of a file.
    pub open spec fn form_of(&self, path: Seq<u8>, line: Seq<u8>) -> Seq<u8> {
        match self.first_claiming(path) {
            Some(i) => self.plugins()[i].normal_form(line),
            None => generic::normal_line(line),
        }
    }

    /// The identifiers of the plugins and, last, of the fallback.
    pub open spec fn names(&self) -> Seq<Seq<char>> {
        Seq::new(
            self.plugins().len() + 1,
            |i: int|
                if i < self.plugins().len() {
                    self.plugins()[i].name()
                } else {
                    "generic-v1"@
                },
        )
    }

    /// The built-in registry: generic fallback only.
    pub fn builtin() -> (r: Self)
        ensures
            r.plugins().len() == 0,
    {
        LanguageRegistry { langs: Vec::new(), fallback: Generic }
    }

    /// Register a plugin. First registered, first asked; the generic fallback
    /// always answers last.
    pub fn register(&mut self, lang: Box<dyn Language>)
        ensures
            final(self).plugins() == old(self).plugins().push(lang),
    {
        self.langs.push(lang);
    }

    /// The language of a file: the first plugin that claims it, else the
    /// fallback.
    pub fn detect(&self, path: &[u8]) -> (r: Detected<'_>)
        ensures
            r.registry() == *self,
            r.plugin() == self.first_claiming(path@),
            r.name() == (match self.first_claiming(path@) {
                Some(i) => self.plugins()[i].name(),
                None => "generic-v1"@,
            }),
            forall|line: Seq<u8>| r.normal_form(line) == self.form_of(path@, line),
    {
        for i in 0..self.langs.len()
            invariant
                self.first_claiming(path@) == first_claim(self.plugins(), path@, i as int),
        {
            if self.langs[i].claims(path) {
                return Detected { registry: self, plugin: Some(i) };
            }
        }
        Detected { registry: self, plugin: None }
    }

    /// Cache-key component: shape hashes depend on normalisation, so anything
    /// pinned to a partition must carry this.
    pub fn fingerprint(&self) -> (r: String)
        ensures
            r@ == join(self.names(), '+'),
    {
        let mut out = String::new();
        let ghost names = self.names();
        assert(join(names.take(0), '+') =~= Seq::<char>::empty());
        for i in 0..self.langs.len()
            invariant
                names == self.names(),
                i > 0 ==> out@ == join(names.take(i as int), '+'),
                i == 0 ==> out@ == Seq::<char>::empty(),
        {
            proof {
                assert(names.take(i + 1).drop_last() =~= names.take(i as int));
                assert(names.take(i + 1).last() == self.plugins()[i as int].name());
            }
            if i > 0 {
                out.push('+');
            }
            let ghost had = out@;
            crate::text::push_str(&mut out, self.langs[i].id());
            if i == 0 {
                assert(out@ =~= names.take(1)[0]);
            }
        }
        let n: usize = self.langs.len();
        proof {
            assert(names.take(n + 1) =~= names);
            assert(names.drop_last() =~= names.take(n as int));
        }
        if n > 0 {
            out.push('+');
        }
        crate::text::push_str(&mut out, self.fallback.id());
        if n == 0 {
            assert(out@ =~= names[0]);
        }
        out
    }
}

/// The first claiming plugin from place `from` on.
pub open spec fn first_claim(langs: Seq<Box<dyn Language>>, path: Seq<u8>, from: int) -> Option<int>
    decreases langs.len() - from,
{
    if from >= langs.len() {
        None
    } else if langs[from].covers(path) {
        Some(from)
    } else {
        first_claim(langs, path, from + 1)
    }
}

/// A file belongs to the first plugin that claims it; where none does, the fallback
/// answers.
pub proof fn law_the_first_plugin_that_claims_a_file_has_it<'r>(
    registry: &'r LanguageRegistry,
    path: &[u8],
    r: Detected<'r>,
)
    requires
        call_ensures(LanguageRegistry::detect, (registry, path), r),
    ensures
        match r.plugin() {
            Some(i) => 0 <= i < registry.plugins().len() && registry.plugins()[i].covers(path@)
                && r.name() == registry.plugins()[i].name() && forall|j: int|
                0 <= j < i ==> !(#[trigger] registry.plugins()[j]).covers(path@),
            None => r.name() == "generic-v1"@ && forall|j: int|
                0 <= j < registry.plugins().len() ==> !(#[trigger] registry.plugins()[j]).covers(
                    path@,
                ),
        },
{
    lemma_first_claim(registry.plugins(), path@, 0);
}

/// The plugin found is the first that claims the path.
proof fn lemma_first_claim(langs: Seq<Box<dyn Language>>, path: Seq<u8>, from: int)
    requires
        0 <= from,
    ensures
        match first_claim(langs, path, from) {
            Some(i) => from <= i < langs.len() && langs[i].covers(path) && forall|j: int|
                from <= j < i ==> !(#[trigger] langs[j]).covers(path),
            None => forall|j: int|
                from <= j < langs.len() ==> !(#[trigger] langs[j]).covers(path),
        },
    decreases langs.len() - from,
{
    if from < langs.len() && !langs[from].covers(path) {
        lemma_first_claim(langs, path, from + 1);
    }
}

/// A fingerprint names every plugin in the order in which they are asked, and the fallback
/// last.
pub proof fn law_a_fingerprint_names_every_language(registry: &LanguageRegistry, r: String)
    requires
        call_ensures(LanguageRegistry::fingerprint, (registry,), r),
        forall|i: int|
            0 <= i < registry.plugins().len() ==> !(#[trigger] registry.plugins()[i]).name().contains(
            '+'),
    ensures
        ({
            let parts = split(r@, '+');
            &&& parts.len() == registry.plugins().len() + 1
            &&& forall|i: int|
                0 <= i < registry.plugins().len() ==> parts[i] == (
                #[trigger] registry.plugins()[i]).name()
            &&& parts.last() == "generic-v1"@
        }),
{
    let names = registry.names();
    let n = registry.plugins().len() as int;
    reveal_strlit("generic-v1");
    assert forall|i: int| 0 <= i < names.len() implies !(#[trigger] names[i]).contains('+') by {
        if i < n {
            assert(names[i] == registry.plugins()[i].name());
        } else {
            assert(names[i] == "generic-v1"@);
            let s = "generic-v1"@;
            assert forall|k: int| 0 <= k < s.len() implies s[k] != '+' by {}
        }
    }
    law_split_undoes_join(names, '+');
}

} // verus!
