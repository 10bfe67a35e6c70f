//! The domain of a reading plan: identities, projections, and the rules that say
//! what is read.
use vstd::prelude::*;

use crate::schema::{ClassEntry, Effort, FileEntry, HunkEntry, PlanDocument};
use crate::text::{chars_of, str_eq, string_of};

pub mod enumerate;
pub mod identity;
pub mod ids;
pub mod source;
pub mod staging;
pub mod tiers;
pub mod view;

pub use ids::{HunkId, PlanIndex};

verus! {

/// Lines added and deleted.
#[derive(Debug, Clone, Copy, PartialEq, Eq, Structural)]
pub struct LineCounts {
    pub adds: u64,
    pub dels: u64,
}

impl LineCounts {
    /// The counts of one hunk.
    pub fn of_hunk(h: &HunkEntry) -> (r: Self)
        ensures
            r.adds == h.new_count,
            r.dels == h.old_count,
    {
        LineCounts { adds: h.new_count as u64, dels: h.old_count as u64 }
    }
}

/// The name of an effort tier.
pub open spec fn effort_text(effort: Effort) -> Seq<char> {
    match effort {
        Effort::Focus => "focus"@,
        Effort::Skim => "skim"@,
        Effort::Noise => "noise"@,
    }
}

/// The tier's domain name.
pub fn effort_name(effort: Effort) -> (r: &'static str)
    ensures
        r@ == effort_text(effort),
{
    match effort {
        Effort::Focus => "focus",
        Effort::Skim => "skim",
        Effort::Noise => "noise",
    }
}

/// How much of an object id is shown.
pub const SHORT_LENGTH: usize = 7;

/// An object id as it is shown.
pub open spec fn shortened(oid: Seq<char>) -> Seq<char> {
    if oid.len() <= SHORT_LENGTH {
        oid
    } else {
        oid.take(SHORT_LENGTH as int)
    }
}

/// An object id as it is shown.
pub fn short_oid(oid: &str) -> (r: String)
    ensures
        r@ == shortened(oid@),
{
    let cs = chars_of(oid);
    let mut out: Vec<char> = Vec::new();
    let n: usize = if cs.len() <= SHORT_LENGTH {
        cs.len()
    } else {
        SHORT_LENGTH
    };
    for i in 0..n
        invariant
            n <= cs@.len(),
            out@ == cs@.take(i as int),
    {
        out.push(cs[i]);
        assert(out@ =~= cs@.take(i + 1));
    }
    assert(cs@.take(cs@.len() as int) =~= cs@);
    string_of(out.as_slice())
}

/// The place of the first file with a path, from place `from` on.
pub open spec fn file_place(files: Seq<FileEntry>, path: Seq<char>, from: int) -> Option<int>
    decreases files.len() - from,
{
    if from >= files.len() {
        None
    } else if files[from].path@ == path {
        Some(from)
    } else {
        file_place(files, path, from + 1)
    }
}

/// The first file with a path.
pub open spec fn first_file(doc: &PlanDocument, path: Seq<char>) -> Option<FileEntry> {
    match file_place(doc.files@, path, 0) {
        Some(i) => Some(doc.files@[i]),
        None => None,
    }
}

/// The place of the first file with a path.
pub fn first_file_place(doc: &PlanDocument, path: &str) -> (r: Option<usize>)
    ensures
        match r {
            Some(i) => i < doc.files@.len() && file_place(doc.files@, path@, 0) == Some(i as int),
            None => file_place(doc.files@, path@, 0) is None,
        },
{
    for i in 0..doc.files.len()
        invariant
            file_place(doc.files@, path@, 0) == file_place(doc.files@, path@, i as int),
    {
        if str_eq(&doc.files[i].path, path) {
            return Some(i);
        }
    }
    None
}

/// Whether a hunk id names a hunk of a generated file.
pub open spec fn hunk_generated(doc: &PlanDocument, id: Seq<char>) -> bool {
    &&& ids::hunk_number(id) matches Some(n) && n < doc.hunks@.len() && (first_file(
        doc,
        doc.hunks@[n as int].file@,
    ) matches Some(f) && f.generated)
}

/// Whether every member of a class lies in a generated file.
pub open spec fn class_generated(doc: &PlanDocument, c: ClassEntry) -> bool {
    forall|k: int|
        0 <= k < c.hunk_ids@.len() ==> hunk_generated(doc, (#[trigger] c.hunk_ids@[k])@)
}

/// Whether every member of a class lies in a generated file: such a class is
/// folded, never offered to the model.
pub fn class_is_generated(doc: &PlanDocument, class: &ClassEntry) -> (r: bool)
    ensures
        r == class_generated(doc, *class),
{
    for k in 0..class.hunk_ids.len()
        invariant
            forall|j: int|
                0 <= j < k ==> hunk_generated(doc, (#[trigger] class.hunk_ids@[j])@),
    {
        let mut yes = false;
        if let Ok(h) = HunkId::parse(&class.hunk_ids[k]) {
            if h.index() < doc.hunks.len() {
                if let Some(f) = first_file_place(doc, &doc.hunks[h.index()].file) {
                    yes = doc.files[f].generated;
                }
            }
        }
        if !yes {
            assert(!hunk_generated(doc, class.hunk_ids@[k as int]@));
            return false;
        }
    }
    true
}

/// An object id is shown by its first seven characters.
pub proof fn law_a_short_id_is_the_start_of_an_id(oid: &str, r: String)
    requires
        call_ensures(short_oid, (oid,), r),
    ensures
        r@.len() <= 7,
        r@.len() <= oid@.len(),
        r@ == oid@.take(r@.len() as int),
        oid@.len() >= 7 ==> r@.len() == 7,
        oid@.len() < 7 ==> r@ == oid@,
{
    assert(oid@.take(oid@.len() as int) =~= oid@);
}

} // verus!
