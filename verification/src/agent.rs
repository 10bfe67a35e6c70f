//! What the grouping model reads: every class it may group, in full, as plain text.
//!
//! The reader is a language model with a terminal, so the format is compact and
//! every block starts with the id it is about. Nothing is truncated and nothing is
//! capped.
use vstd::prelude::*;

use crate::artefact::{entries, index, is_view, kept_classes, ClassView};
use crate::plan::{class_generated, first_file, first_file_place};
use crate::schema::{ClassEdge, ClassEntry, Disposition, FileEntry, HunkEntry, PlanDocument};
use crate::seqs::texts;
use crate::text::{
    decimal, join_strings, join_with, pad, padded, push_decimal, push_str, str_eq,
};

verus! {

/// The letter of a disposition.
pub open spec fn kind_text(k: Disposition) -> Seq<char> {
    match k {
        Disposition::A => "A"@,
        Disposition::D => "D"@,
        Disposition::M => "M"@,
    }
}

/// The line that a class's block starts with.
pub open spec fn header_text(v: ClassView) -> Seq<char> {
    padded(v.class.id@, 5) + " "@ + decimal(v.members@.len()) + "h "@ + decimal(v.files@.len())
        + "f "@ + kind_text(v.kind) + "  "@ + v.place() + "  pure="@ + (
    if v.class.pure_substitution {
        "yes"@
    } else {
        "no"@
    })
}

fn header(v: &ClassView) -> (r: String)
    ensures
        r@ == header_text(*v),
{
    let mut out = pad(&v.class.id, 5);
    push_str(&mut out, " ");
    push_decimal(&mut out, v.members.len() as u64);
    push_str(&mut out, "h ");
    push_decimal(&mut out, v.files.len() as u64);
    push_str(&mut out, "f ");
    push_str(
        &mut out,
        match v.kind {
            Disposition::A => "A",
            Disposition::D => "D",
            Disposition::M => "M",
        },
    );
    push_str(&mut out, "  ");
    push_str(&mut out, &v.exemplar_at());
    push_str(&mut out, "  pure=");
    push_str(
        &mut out,
        if v.class.pure_substitution {
            "yes"
        } else {
            "no"
        },
    );
    out
}

/// An edge: the class it leads to and the symbols that draw it.
pub open spec fn edge_text(e: ClassEdge) -> Seq<char> {
    e.on@ + " ("@ + join_with(texts(e.via@), " "@) + ")"@
}

/// Whether a class has an edge to one with an id.
pub open spec fn leads_to(c: ClassEntry, id: Seq<char>) -> bool {
    exists|i: int| 0 <= i < c.depends_on@.len() && (#[trigger] c.depends_on@[i]).on@ == id
}

/// The ids of the classes among the first `k` that consume the one with an id.
pub open spec fn used_by(classes: Seq<ClassEntry>, id: Seq<char>, k: nat) -> Seq<Seq<char>>
    decreases k,
{
    if k == 0 {
        Seq::empty()
    } else if leads_to(classes[k - 1], id) {
        used_by(classes, id, (k - 1) as nat).push(classes[k - 1].id@)
    } else {
        used_by(classes, id, (k - 1) as nat)
    }
}

/// What a class introduces.
pub open spec fn defines_line(c: ClassEntry) -> Seq<Seq<char>> {
    if c.defines@.len() > 0 {
        seq!["defines: "@ + join_with(texts(c.defines@), ", "@)]
    } else {
        Seq::empty()
    }
}

/// What a class consumes.
pub open spec fn uses_line(c: ClassEntry) -> Seq<Seq<char>> {
    if c.depends_on@.len() > 0 {
        seq![
            "uses: "@ + join_with(
                c.depends_on@.map_values(|e: ClassEdge| edge_text(e)),
                ", "@,
            ),
        ]
    } else {
        Seq::empty()
    }
}

/// Who consumes a class.
pub open spec fn used_by_line(doc: &PlanDocument, c: ClassEntry) -> Seq<Seq<char>> {
    let users = used_by(doc.classes@, c.id@, doc.classes@.len());
    if users.len() > 0 {
        seq!["used by: "@ + join_with(users, ", "@)]
    } else {
        Seq::empty()
    }
}

/// What a class introduces, what it consumes, and who consumes it. The reverse
/// edges are printed too: "who needs this" is the half of a dependency that a
/// reader cannot work out from a class's own entry.
pub open spec fn relation_lines(doc: &PlanDocument, c: ClassEntry) -> Seq<Seq<char>> {
    defines_line(c) + uses_line(c) + used_by_line(doc, c)
}

fn edge_string(e: &ClassEdge) -> (r: String)
    ensures
        r@ == edge_text(*e),
{
    let mut out = e.on.clone();
    push_str(&mut out, " (");
    push_str(&mut out, &join_strings(&e.via, " "));
    push_str(&mut out, ")");
    out
}

fn users(doc: &PlanDocument, id: &str) -> (r: Vec<String>)
    ensures
        texts(r@) == used_by(doc.classes@, id@, doc.classes@.len()),
{
    let mut out: Vec<String> = Vec::new();
    assert(texts(out@) =~= used_by(doc.classes@, id@, 0));
    for i in 0..doc.classes.len()
        invariant
            texts(out@) == used_by(doc.classes@, id@, i as nat),
    {
        let c = &doc.classes[i];
        let mut yes = false;
        for k in 0..c.depends_on.len()
            invariant
                yes == exists|j: int|
                    0 <= j < k && (#[trigger] c.depends_on@[j]).on@ == id@,
        {
            if str_eq(&c.depends_on[k].on, id) {
                yes = true;
                assert(c.depends_on@[k as int].on@ == id@);
            }
        }
        assert(yes == leads_to(*c, id@));
        if yes {
            let ghost had = texts(out@);
            out.push(c.id.clone());
            assert(texts(out@) =~= had.push(c.id@));
        }
    }
    out
}

fn relations(doc: &PlanDocument, c: &ClassEntry) -> (r: Vec<String>)
    ensures
        texts(r@) == relation_lines(doc, *c),
{
    let mut out: Vec<String> = Vec::new();
    if c.defines.len() > 0 {
        let mut line = "defines: ".to_owned();
        push_str(&mut line, &join_strings(&c.defines, ", "));
        out.push(line);
    }
    assert(texts(out@) =~= defines_line(*c));
    if c.depends_on.len() > 0 {
        let ghost want = c.depends_on@.map_values(|e: ClassEdge| edge_text(e));
        let mut uses: Vec<String> = Vec::new();
        for i in 0..c.depends_on.len()
            invariant
                want == c.depends_on@.map_values(|e: ClassEdge| edge_text(e)),
                uses@.len() == i,
                forall|k: int| 0 <= k < i ==> (#[trigger] uses@[k])@ == want[k],
        {
            uses.push(edge_string(&c.depends_on[i]));
        }
        assert(texts(uses@) =~= want);
        let mut line = "uses: ".to_owned();
        push_str(&mut line, &join_strings(&uses, ", "));
        out.push(line);
    }
    assert(texts(out@) =~= defines_line(*c) + uses_line(*c));
    let by = users(doc, &c.id);
    assert(texts(by@).len() == by@.len());
    if by.len() > 0 {
        let mut line = "used by: ".to_owned();
        push_str(&mut line, &join_strings(&by, ", "));
        out.push(line);
    }
    assert(texts(out@) =~= relation_lines(doc, *c));
    out
}

/// One member: its id, its file and its line ranges.
pub open spec fn member_line(h: HunkEntry, exemplar: Seq<char>) -> Seq<char> {
    "  "@ + h.id@ + "  "@ + h.file@ + "  @@ -"@ + decimal(h.old_start as nat) + ","@ + decimal(
        h.old_count as nat,
    ) + " +"@ + decimal(h.new_start as nat) + ","@ + decimal(h.new_count as nat) + " @@"@ + (
    if h.id@ == exemplar {
        "  (exemplar)"@
    } else {
        ""@
    }) + "\n"@
}

/// The first `k` members.
pub open spec fn member_lines(hs: Seq<HunkEntry>, exemplar: Seq<char>, k: nat) -> Seq<char>
    decreases k,
{
    if k == 0 {
        Seq::empty()
    } else {
        member_lines(hs, exemplar, (k - 1) as nat) + member_line(hs[k - 1], exemplar)
    }
}

/// The note on a file that was renamed: what the relocation rule turns on.
pub open spec fn rename_note(f: Option<FileEntry>) -> Seq<char> {
    match f {
        Some(f) => match (f.old_path, f.rename_similarity) {
            (Some(old), Some(sim)) => "  (renamed from "@ + old@ + ", "@ + decimal(sim as nat)
                + "% similar)"@,
            _ => ""@,
        },
        None => ""@,
    }
}

/// One file that a class touches.
pub open spec fn file_line(doc: &PlanDocument, path: Seq<char>) -> Seq<char> {
    "  "@ + path + rename_note(first_file(doc, path)) + "\n"@
}

/// The first `k` files.
pub open spec fn file_lines(doc: &PlanDocument, paths: Seq<Seq<char>>, k: nat) -> Seq<char>
    decreases k,
{
    if k == 0 {
        Seq::empty()
    } else {
        file_lines(doc, paths, (k - 1) as nat) + file_line(doc, paths[k - 1])
    }
}

/// Lines, each with a newline behind it.
pub open spec fn ended(lines: Seq<Seq<char>>, k: nat) -> Seq<char>
    decreases k,
{
    if k == 0 {
        Seq::empty()
    } else {
        ended(lines, (k - 1) as nat) + lines[k - 1] + "\n"@
    }
}

/// The block of a class: its header, its relations, every member and every file.
/// Rating a class is a claim about all its members, and this is the list it is
/// checked against.
pub open spec fn block(doc: &PlanDocument, v: ClassView) -> Seq<char> {
    let hs = entries(v.members@);
    let paths = texts(v.files@);
    let related = relation_lines(doc, *v.class);
    header_text(v) + "\n"@ + ended(related, related.len()) + "hunks:\n"@ + member_lines(
        hs,
        v.class.exemplar@,
        hs.len(),
    ) + "files:\n"@ + file_lines(doc, paths, paths.len())
}

fn member_string(h: &HunkEntry, exemplar: &str) -> (r: String)
    ensures
        r@ == member_line(*h, exemplar@),
{
    let mut out = "  ".to_owned();
    push_str(&mut out, &h.id);
    push_str(&mut out, "  ");
    push_str(&mut out, &h.file);
    push_str(&mut out, "  @@ -");
    push_decimal(&mut out, h.old_start as u64);
    push_str(&mut out, ",");
    push_decimal(&mut out, h.old_count as u64);
    push_str(&mut out, " +");
    push_decimal(&mut out, h.new_start as u64);
    push_str(&mut out, ",");
    push_decimal(&mut out, h.new_count as u64);
    push_str(&mut out, " @@");
    push_str(
        &mut out,
        if str_eq(&h.id, exemplar) {
            "  (exemplar)"
        } else {
            ""
        },
    );
    push_str(&mut out, "\n");
    out
}

fn file_string(doc: &PlanDocument, path: &str) -> (r: String)
    ensures
        r@ == file_line(doc, path@),
{
    let mut note = "".to_owned();
    if let Some(f) = first_file_place(doc, path) {
        if let Some(old) = &doc.files[f].old_path {
            if let Some(sim) = doc.files[f].rename_similarity {
                note = "  (renamed from ".to_owned();
                push_str(&mut note, old);
                push_str(&mut note, ", ");
                push_decimal(&mut note, sim as u64);
                push_str(&mut note, "% similar)");
            }
        }
    }
    let mut out = "  ".to_owned();
    push_str(&mut out, path);
    push_str(&mut out, &note);
    push_str(&mut out, "\n");
    out
}

fn relations_text(doc: &PlanDocument, c: &ClassEntry) -> (r: String)
    ensures
        r@ == ended(relation_lines(doc, *c), relation_lines(doc, *c).len()),
{
    let related = relations(doc, c);
    let ghost ls = relation_lines(doc, *c);
    let mut out = String::new();
    assert(out@ =~= ended(ls, 0));
    for i in 0..related.len()
        invariant
            ls == texts(related@),
            out@ == ended(ls, i as nat),
    {
        assert(ls[i as int] == related@[i as int]@);
        push_str(&mut out, &related[i]);
        push_str(&mut out, "\n");
    }
    out
}

fn members_text(v: &ClassView) -> (r: String)
    ensures
        r@ == member_lines(entries(v.members@), v.class.exemplar@, v.members@.len()),
{
    let ghost hs = entries(v.members@);
    let mut out = String::new();
    assert(out@ =~= member_lines(hs, v.class.exemplar@, 0));
    for i in 0..v.members.len()
        invariant
            hs == entries(v.members@),
            out@ == member_lines(hs, v.class.exemplar@, i as nat),
    {
        assert(hs[i as int] == *v.members@[i as int]);
        push_str(&mut out, &member_string(v.members[i], &v.class.exemplar));
    }
    out
}

fn files_text(doc: &PlanDocument, files: &Vec<String>) -> (r: String)
    ensures
        r@ == file_lines(doc, texts(files@), files@.len()),
{
    let ghost paths = texts(files@);
    let mut out = String::new();
    assert(out@ =~= file_lines(doc, paths, 0));
    for i in 0..files.len()
        invariant
            paths == texts(files@),
            out@ == file_lines(doc, paths, i as nat),
    {
        assert(paths[i as int] == files@[i as int]@);
        push_str(&mut out, &file_string(doc, &files[i]));
    }
    out
}

/// The block of a class.
pub fn detail(doc: &PlanDocument, v: &ClassView) -> (r: String)
    ensures
        r@ == block(doc, *v),
{
    let mut out = header(v);
    push_str(&mut out, "\n");
    push_str(&mut out, &relations_text(doc, v.class));
    push_str(&mut out, "hunks:\n");
    push_str(&mut out, &members_text(v));
    push_str(&mut out, "files:\n");
    push_str(&mut out, &files_text(doc, &v.files));
    out
}

/// Whether a text is the blocks of some views, one after the other.
pub open spec fn blocks(doc: &PlanDocument, vs: Seq<ClassView>, k: nat) -> Seq<char>
    decreases k,
{
    if k == 0 {
        Seq::empty()
    } else {
        blocks(doc, vs, (k - 1) as nat) + block(doc, vs[k - 1])
    }
}

/// The classes the model is asked to group.
pub open spec fn offered(doc: &PlanDocument) -> Seq<ClassEntry> {
    kept_classes(doc, |c: ClassEntry| !class_generated(doc, c), doc.classes@.len())
}

/// Every class the model is asked to group, in full. Generated content is left out:
/// handing the model a lockfile would be bytes it must read and a class id that the
/// audit would refuse. A change without such classes says so: a blank reply reads
/// as a broken tool.
pub fn run(doc: &PlanDocument) -> (r: String)
    ensures
        offered(doc).len() == 0 ==> r@ == "no classes\n"@,
        offered(doc).len() > 0 ==> exists|vs: Seq<ClassView>|
            {
                &&& vs.len() == offered(doc).len()
                &&& forall|i: int|
                    0 <= i < vs.len() ==> is_view(#[trigger] vs[i], doc, offered(doc)[i])
                &&& r@ == #[trigger] blocks(doc, vs, vs.len())
            },
{
    let views = index(doc);
    if views.len() == 0 {
        return "no classes\n".to_owned();
    }
    let ghost vs = views@;
    let mut out = String::new();
    assert(out@ =~= blocks(doc, vs, 0));
    for i in 0..views.len()
        invariant
            vs == views@,
            out@ == blocks(doc, vs, i as nat),
    {
        push_str(&mut out, &detail(doc, &views[i]));
    }
    out
}

} // verus!
