//! What the grouping stage knows of each shape class, derived from the document.
use vstd::prelude::*;

use crate::grouping::{ClassInfo, RELOCATION_THRESHOLD};
use crate::schema::{
    file_names, find_file, find_hunk, hunk_names, last_pos, ClassEntry, Disposition, FileEntry,
    HunkEntry, PlanDocument,
};
use crate::seqs::{chars_lt, is_sorted_set, sort_set, sort_texts, sorted_by, texts};
use crate::text::{decimal, push_decimal, push_str};

verus! {

/// Whether a hunk id names a hunk of the document, and that hunk's file is a file
/// of the document.
pub open spec fn resolves(doc: &PlanDocument, id: Seq<char>) -> bool {
    last_pos(hunk_names(doc.hunks@), id) matches Some(i) && last_pos(
        file_names(doc.files@),
        doc.hunks@[i].file@,
    ) is Some
}

/// Whether every hunk that the classes name is in the document, with its file.
pub open spec fn consistent(doc: &PlanDocument) -> bool {
    forall|c: int|
        0 <= c < doc.classes@.len() ==> class_resolves(doc, #[trigger] doc.classes@[c])
}

pub open spec fn class_resolves(doc: &PlanDocument, c: ClassEntry) -> bool {
    &&& resolves(doc, c.exemplar@)
    &&& forall|k: int| 0 <= k < c.hunk_ids@.len() ==> resolves(doc, (#[trigger] c.hunk_ids@[k])@)
}

/// The hunk that an id names.
pub open spec fn hunk_entry(doc: &PlanDocument, id: Seq<char>) -> HunkEntry {
    doc.hunks@[last_pos(hunk_names(doc.hunks@), id)->0]
}

/// The file at a path.
pub open spec fn file_entry(doc: &PlanDocument, path: Seq<char>) -> FileEntry {
    doc.files@[last_pos(file_names(doc.files@), path)->0]
}

/// The files of the members of a class.
pub open spec fn member_files(doc: &PlanDocument, c: ClassEntry) -> Seq<Seq<char>> {
    Seq::new(c.hunk_ids@.len(), |k: int| hunk_entry(doc, c.hunk_ids@[k]@).file@)
}

/// The digests of the members of a class.
pub open spec fn member_digests(doc: &PlanDocument, c: ClassEntry) -> Seq<Seq<char>> {
    Seq::new(c.hunk_ids@.len(), |k: int| hunk_entry(doc, c.hunk_ids@[k]@).digest@)
}

/// Whether a file is a rename that rewrote too much to be a relocation.
pub open spec fn rewritten(f: FileEntry) -> bool {
    f.rename_similarity matches Some(s) && s < RELOCATION_THRESHOLD
}

pub open spec fn note_text(old: Seq<char>, similarity: u8) -> Seq<char> {
    "renamed from "@ + old + ", "@ + decimal(similarity as nat) + "% similar"@
}

/// The note on the first of the files that is a rename with a known origin.
pub open spec fn note_from(doc: &PlanDocument, paths: Seq<Seq<char>>, from: int) -> Option<
    Seq<char>,
>
    decreases paths.len() - from,
{
    if from >= paths.len() {
        None
    } else {
        let f = file_entry(doc, paths[from]);
        match (f.rename_similarity, f.old_path) {
            (Some(s), Some(old)) => Some(note_text(old@, s)),
            _ => note_from(doc, paths, from + 1),
        }
    }
}

pub open spec fn kind_letter(d: Disposition) -> char {
    match d {
        Disposition::A => 'A',
        Disposition::D => 'D',
        Disposition::M => 'M',
    }
}

pub open spec fn opt_text(o: Option<String>) -> Option<Seq<char>> {
    match o {
        Some(s) => Some(s@),
        None => None,
    }
}

/// What an info says of a class of the document.
pub open spec fn describes(info: ClassInfo, doc: &PlanDocument, c: ClassEntry) -> bool {
    let files = texts(info.files@);
    &&& info.id@ == c.id@
    &&& info.n_hunks == c.hunk_ids@.len()
    &&& is_sorted_set(files, member_files(doc, c))
    &&& info.all_generated == (forall|k: int|
        0 <= k < files.len() ==> file_entry(doc, #[trigger] files[k]).generated)
    &&& info.rename_gated == (exists|k: int|
        0 <= k < files.len() && rewritten(file_entry(doc, #[trigger] files[k])))
    &&& opt_text(info.rename_note) == note_from(doc, files, 0)
    &&& Some(info.exemplar as int) == last_pos(hunk_names(doc.hunks@), c.exemplar@)
    &&& info.kind == kind_letter(
        file_entry(doc, hunk_entry(doc, c.exemplar@).file@).disposition,
    )
    &&& texts(info.digests@) == sorted_by(
        member_digests(doc, c),
        |a: Seq<char>, b: Seq<char>| chars_lt(a, b),
    )
}

/// What is known of one class.
fn class_info(doc: &PlanDocument, c: &ClassEntry) -> (r: ClassInfo)
    requires
        class_resolves(doc, *c),
    ensures
        describes(r, doc, *c),
{
    let mut touched: Vec<String> = Vec::new();
    let mut contents: Vec<String> = Vec::new();
    for k in 0..c.hunk_ids.len()
        invariant
            class_resolves(doc, *c),
            texts(touched@) == member_files(doc, *c).take(k as int),
            texts(contents@) == member_digests(doc, *c).take(k as int),
    {
        assert(resolves(doc, c.hunk_ids@[k as int]@));
        let ghost a = texts(touched@);
        let ghost b = texts(contents@);
        match find_hunk(&doc.hunks, &c.hunk_ids[k]) {
            Some(i) => {
                touched.push(doc.hunks[i].file.clone());
                contents.push(doc.hunks[i].digest.clone());
                assert(texts(touched@) =~= a.push(doc.hunks@[i as int].file@));
                assert(texts(contents@) =~= b.push(doc.hunks@[i as int].digest@));
                assert(texts(touched@) =~= member_files(doc, *c).take(k + 1));
                assert(texts(contents@) =~= member_digests(doc, *c).take(k + 1));
            },
            None => {
                assert(false);
            },
        }
    }
    assert(texts(touched@) =~= member_files(doc, *c));
    assert(texts(contents@) =~= member_digests(doc, *c));
    let files = sort_set(&touched);
    let digests = sort_texts(&contents);
    let ghost paths = texts(files@);

    let mut all_generated = true;
    let mut rename_gated = false;
    let mut rename_note: Option<String> = None;
    for k in 0..files.len()
        invariant
            class_resolves(doc, *c),
            paths == texts(files@),
            is_sorted_set(paths, member_files(doc, *c)),
            all_generated == (forall|j: int|
                0 <= j < k ==> file_entry(doc, #[trigger] paths[j]).generated),
            rename_gated == (exists|j: int|
                0 <= j < k && rewritten(file_entry(doc, #[trigger] paths[j]))),
            rename_note is Some ==> opt_text(rename_note) == note_from(doc, paths, 0),
            rename_note is None ==> note_from(doc, paths, 0) == note_from(doc, paths, k as int),
    {
        proof {
            let m = member_files(doc, *c);
            assert(paths.contains(paths[k as int]));
            assert(m.contains(paths[k as int]));
            let j = choose|j: int| 0 <= j < m.len() && m[j] == paths[k as int];
            assert(resolves(doc, c.hunk_ids@[j]@));
        }
        match find_file(&doc.files, &files[k]) {
            Some(i) => {
                let f = &doc.files[i];
                assert(*f == file_entry(doc, paths[k as int]));
                if !f.generated {
                    all_generated = false;
                }
                if let Some(s) = f.rename_similarity {
                    if s < RELOCATION_THRESHOLD {
                        rename_gated = true;
                        assert(rewritten(file_entry(doc, paths[k as int])));
                    }
                    if rename_note.is_none() {
                        if let Some(old) = &f.old_path {
                            let mut note = String::new();
                            push_str(&mut note, "renamed from ");
                            push_str(&mut note, old);
                            push_str(&mut note, ", ");
                            push_decimal(&mut note, s as u64);
                            push_str(&mut note, "% similar");
                            assert(note@ =~= note_text(old@, s));
                            rename_note = Some(note);
                        }
                    }
                }
            },
            None => {
                assert(false);
            },
        }
    }
    assert(resolves(doc, c.exemplar@));
    let exemplar: usize = match find_hunk(&doc.hunks, &c.exemplar) {
        Some(i) => i,
        None => 0,
    };
    let kind = match find_file(&doc.files, &doc.hunks[exemplar].file) {
        Some(i) => match doc.files[i].disposition {
            Disposition::A => 'A',
            Disposition::D => 'D',
            Disposition::M => 'M',
        },
        None => 'M',
    };
    ClassInfo {
        id: c.id.clone(),
        n_hunks: c.hunk_ids.len(),
        files,
        kind,
        exemplar,
        all_generated,
        rename_gated,
        rename_note,
        digests,
    }
}

/// Derive per-class facts from the document.
pub fn class_infos(doc: &PlanDocument) -> (r: Vec<ClassInfo>)
    requires
        consistent(doc),
    ensures
        r@.len() == doc.classes@.len(),
        forall|c: int|
            0 <= c < r@.len() ==> describes(#[trigger] r@[c], doc, doc.classes@[c]),
{
    let mut out: Vec<ClassInfo> = Vec::new();
    for i in 0..doc.classes.len()
        invariant
            consistent(doc),
            out@.len() == i,
            forall|c: int| 0 <= c < i ==> describes(#[trigger] out@[c], doc, doc.classes@[c]),
    {
        assert(class_resolves(doc, doc.classes@[i as int]));
        out.push(class_info(doc, &doc.classes[i]));
    }
    out
}

} // verus!
