//! Shape classes and hunk digests.
//!
//! A shape class groups hunks whose diff text is identical after normalising
//! away identifiers, string and numeric literals, on both sides: hashing only
//! added lines would collapse every deletion-only hunk into one class.
//!
//! Line normalisation is pluggable per language; the framing here (sigil
//! prefixes, sorting, disposition in the key, twelve digits of SHA-1) is
//! language-independent.
use vstd::multiset::Multiset;
use vstd::prelude::*;

use crate::hash::{hex_text, sha1_digest, sha1_hex, sha1_prefix, sha1_short};
use crate::lang::{Language, LanguageRegistry};
use crate::model::{DiffView, FileChange, Hunk};
use crate::seqs::{
    bytes_eq, bytes_less, bytes_lt, copy_bytes, join, join_bytes, law_split_undoes_join,
    lemma_bytes_order, lemma_sorted_multiset, lemma_stable_exists, sorted_by, stable_before, stable_order,
    stable_perm, views,
};

verus! {

/// One side's lines in normal form, each with the sigil in front.
pub open spec fn marked_lines(
    lines: Seq<Vec<u8>>,
    sigil: u8,
    form: spec_fn(Seq<u8>) -> Seq<u8>,
) -> Seq<Seq<u8>> {
    Seq::new(lines.len(), |i: int| seq![sigil] + form(lines[i]@))
}

/// One side's lines in normal form, marked and in byte order.
pub open spec fn normal_side(
    lines: Seq<Vec<u8>>,
    sigil: u8,
    form: spec_fn(Seq<u8>) -> Seq<u8>,
) -> Seq<Seq<u8>> {
    sorted_by(marked_lines(lines, sigil, form), |a: Seq<u8>, b: Seq<u8>| bytes_lt(a, b))
}

/// The normal form of a language, as a function.
pub open spec fn form_of<L: Language + ?Sized>(lang: &L) -> spec_fn(Seq<u8>) -> Seq<u8> {
    |line: Seq<u8>| lang.normal_form(line)
}

/// Normalise one side's lines: language normalisation, sigil prefixed, sorted.
pub fn norm_lines<L: Language + ?Sized>(lines: &[Vec<u8>], sigil: u8, lang: &L) -> (r: Vec<Vec<u8>>)
    ensures
        views(r@) == normal_side(lines@, sigil, form_of(lang)),
{
    let ghost form = form_of(lang);
    let ghost all = marked_lines(lines@, sigil, form);
    let mut marked: Vec<Vec<u8>> = Vec::new();
    for i in 0..lines.len()
        invariant
            form == form_of(lang),
            all == marked_lines(lines@, sigil, form),
            marked@.len() == i,
            forall|j: int| 0 <= j < i ==> (#[trigger] marked@[j])@ == all[j],
    {
        let norm = lang.normalize_line(&lines[i]);
        let mut v: Vec<u8> = Vec::new();
        v.push(sigil);
        v.extend_from_slice(&norm);
        assert(v@ =~= seq![sigil] + form(lines@[i as int]@));
        marked.push(v);
    }
    let ghost lt = |i: int, j: int| bytes_lt(all[i], all[j]);
    let less = |i: usize, j: usize| -> (r: bool)
        requires
            i < marked@.len(),
            j < marked@.len(),
        ensures
            r == bytes_lt(marked@[i as int]@, marked@[j as int]@),
        { bytes_less(&marked[i], &marked[j]) };
    proof {
        assert forall|i: int, j: int, k: int| true implies {
            &&& !lt(i, i)
            &&& (#[trigger] lt(i, j) && #[trigger] lt(j, k) ==> lt(i, k))
            &&& (#[trigger] lt(i, k) ==> lt(i, j) || lt(j, k))
        } by {
            lemma_bytes_order(all[i], all[j], all[k]);
        }
        assert forall|i: int| !#[trigger] lt(i, i) by {
            lemma_bytes_order(all[i], all[i], all[i]);
        }
    }
    let order = stable_order(marked.len(), less, Ghost(lt));
    proof {
        let f = |a: Seq<u8>, b: Seq<u8>| bytes_lt(a, b);
        assert(lt =~= (|i: int, j: int| f(all[i], all[j])));
    }
    let mut out: Vec<Vec<u8>> = Vec::new();
    for k in 0..order.len()
        invariant
            marked@.len() == lines@.len(),
            order@.len() == marked@.len(),
            forall|k: int| 0 <= k < order@.len() ==> (#[trigger] order@[k]) < marked@.len(),
            forall|j: int| 0 <= j < marked@.len() ==> (#[trigger] marked@[j])@ == all[j],
            out@.len() == k,
            forall|j: int| 0 <= j < k ==> (#[trigger] out@[j])@ == all[order@[j] as int],
    {
        out.push(copy_bytes(&marked[order[k]]));
    }
    assert(views(out@) =~= normal_side(lines@, sigil, form));
    out
}

/// What the shape hash is taken of: the normal form of both sides, the
/// disposition, and whether the file is generated.
pub open spec fn shape_preimage(
    hunk: &Hunk,
    letter: u8,
    generated: bool,
    form: spec_fn(Seq<u8>) -> Seq<u8>,
) -> Seq<u8> {
    join(normal_side(hunk.removed@, 45u8, form) + normal_side(hunk.added@, 43u8, form), 10u8)
        + seq![
        124u8,
        letter,
        124u8,
        if generated {
            103u8
        } else {
            46u8
        },
    ]
}

/// Shape key: normalised removed and added lines, the file disposition, and
/// whether the file is generated. Twelve hexadecimal digits, used as the class
/// key.
///
/// The disposition is in the key because a whole-file-add hunk and a
/// modification with identical text are different shapes. `generated` is in the
/// key because a class is a unit of routing, not only a unit of text: every
/// class is wholly generated or wholly not.
pub fn shape_hash<L: Language + ?Sized>(
    hunk: &Hunk,
    disposition_letter: u8,
    generated: bool,
    lang: &L,
) -> (r: String)
    ensures
        r@ == sha1_prefix(
            shape_preimage(hunk, disposition_letter, generated, form_of(lang)),
            12,
        ),
{
    let mut parts = norm_lines(&hunk.removed, 45u8, lang);
    let mut added = norm_lines(&hunk.added, 43u8, lang);
    let ghost a = views(parts@);
    let ghost b = views(added@);
    parts.append(&mut added);
    assert(views(parts@) =~= a + b);
    let mut text = join_bytes(&parts, 10u8);
    let ghost joined = text@;
    text.push(124u8);
    text.push(disposition_letter);
    text.push(124u8);
    text.push(
        if generated {
            103u8
        } else {
            46u8
        },
    );
    assert(text@ =~= shape_preimage(hunk, disposition_letter, generated, form_of(lang)));
    sha1_short(&text, 12)
}

/// Lines with a mark before each and a newline behind.
pub open spec fn marked_text(lines: Seq<Vec<u8>>, mark: u8) -> Seq<u8>
    decreases lines.len(),
{
    if lines.len() == 0 {
        Seq::empty()
    } else {
        marked_text(lines.drop_last(), mark) + seq![mark] + lines.last()@ + seq![10u8]
    }
}

pub open spec fn flag(b: bool) -> u8 {
    if b {
        1u8
    } else {
        0u8
    }
}

/// What the digest is taken of: the exact removed and added lines and the two
/// no-newline marks.
pub open spec fn digest_preimage(hunk: &Hunk) -> Seq<u8> {
    marked_text(hunk.removed@, 45u8) + marked_text(hunk.added@, 43u8) + seq![
        flag(hunk.nonl_old),
        flag(hunk.nonl_new),
    ]
}

fn push_marked(text: &mut Vec<u8>, lines: &Vec<Vec<u8>>, mark: u8)
    ensures
        final(text)@ == old(text)@ + marked_text(lines@, mark),
{
    let ghost had = text@;
    assert(lines@.take(0) =~= Seq::<Vec<u8>>::empty());
    for i in 0..lines.len()
        invariant
            text@ == had + marked_text(lines@.take(i as int), mark),
    {
        assert(lines@.take(i + 1).drop_last() =~= lines@.take(i as int));
        text.push(mark);
        text.extend_from_slice(&lines[i]);
        text.push(10u8);
        assert(text@ =~= had + marked_text(lines@.take(i + 1), mark));
    }
    assert(lines@.take(lines@.len() as int) =~= lines@);
}

/// Exact content digest: not normalised and not language-dependent. The stable
/// anchor that lets comments and review state survive regeneration.
pub fn hunk_digest(hunk: &Hunk) -> (r: String)
    ensures
        r@ == hex_text(sha1_digest(digest_preimage(hunk))),
        r@.len() == 40,
{
    let mut text: Vec<u8> = Vec::new();
    push_marked(&mut text, &hunk.removed, 45u8);
    push_marked(&mut text, &hunk.added, 43u8);
    text.push(
        if hunk.nonl_old {
            1u8
        } else {
            0u8
        },
    );
    text.push(
        if hunk.nonl_new {
            1u8
        } else {
            0u8
        },
    );
    assert(text@ =~= digest_preimage(hunk));
    sha1_hex(&text)
}

/// A structure-free substitution: both sides have lines, and without identifiers
/// and literals they match.
pub open spec fn is_pure(hunk: &Hunk, form: spec_fn(Seq<u8>) -> Seq<u8>) -> bool {
    hunk.removed@.len() > 0 && hunk.added@.len() > 0 && normal_side(hunk.removed@, 32u8, form)
        == normal_side(hunk.added@, 32u8, form)
}

/// True iff, after erasing identifiers and literals, removed and added lines
/// match. Insertion-only and deletion-only hunks are never pure.
pub fn pure_substitution<L: Language + ?Sized>(hunk: &Hunk, lang: &L) -> (r: bool)
    ensures
        r == is_pure(hunk, form_of(lang)),
{
    if hunk.removed.len() == 0 || hunk.added.len() == 0 {
        return false;
    }
    let a = norm_lines(&hunk.removed, 32u8, lang);
    let b = norm_lines(&hunk.added, 32u8, lang);
    if a.len() != b.len() {
        assert(views(a@).len() != views(b@).len());
        return false;
    }
    for i in 0..a.len()
        invariant
            a@.len() == b@.len(),
            views(a@) == normal_side(hunk.removed@, 32u8, form_of(lang)),
            views(b@) == normal_side(hunk.added@, 32u8, form_of(lang)),
            forall|j: int| 0 <= j < i ==> views(a@)[j] == views(b@)[j],
    {
        if !bytes_eq(&a[i], &b[i]) {
            assert(views(a@)[i as int] != views(b@)[i as int]);
            return false;
        }
    }
    assert(views(a@) =~= views(b@));
    true
}

/// The mechanical partition: every hunk assigned to a shape class. Classes are
/// ordered by descending member count, ties by first appearance.
#[derive(Debug, Clone)]
pub struct Partition {
    /// Hunk indices per class, in canonical order within each class.
    pub classes: Vec<Vec<usize>>,
    /// Canonical hunk index to class index.
    pub class_of: Vec<usize>,
    /// Per class: is the exemplar a pure substitution?
    pub pure: Vec<bool>,
}

/// The file of a hunk of the view.
pub open spec fn file_at(view: &DiffView, i: int) -> FileChange {
    view.files@[view.hunks@[i].file as int]
}

/// The normal form that applies to a hunk of the view.
pub open spec fn hunk_form(view: &DiffView, langs: &LanguageRegistry, i: int) -> spec_fn(
    Seq<u8>,
) -> Seq<u8> {
    |line: Seq<u8>| langs.form_of(file_at(view, i).path@, line)
}

/// The class key of a hunk of the view.
pub open spec fn class_key(view: &DiffView, langs: &LanguageRegistry, i: int) -> Seq<char> {
    sha1_prefix(
        shape_preimage(
            &view.hunks@[i],
            file_at(view, i).disposition.letter_of(),
            file_at(view, i).generated is Some,
            hunk_form(view, langs, i),
        ),
        12,
    )
}

/// Whether numbers are listed in increasing order.
pub open spec fn increasing(s: Seq<usize>) -> bool {
    forall|a: int, b: int| 0 <= a < b < s.len() ==> s[a] < s[b]
}

/// Whether `classes` and `class_of` say the same: class `c` lists, in increasing
/// order, exactly the items that `class_of` puts into `c`, and no class is empty.
pub open spec fn is_partition(classes: Seq<Vec<usize>>, class_of: Seq<usize>) -> bool {
    &&& forall|i: int| 0 <= i < class_of.len() ==> (#[trigger] class_of[i]) < classes.len()
    &&& forall|c: int| 0 <= c < classes.len() ==> (#[trigger] classes[c])@.len() > 0 && increasing(
        classes[c]@,
    )
    &&& forall|c: int, k: int|
        0 <= c < classes.len() && 0 <= k < classes[c]@.len() ==> (#[trigger] classes[c]@[k])
            < class_of.len() && class_of[classes[c]@[k] as int] == c
    &&& forall|i: int|
        0 <= i < class_of.len() ==> #[trigger] classes[class_of[i] as int]@.contains(i as usize)
}

/// Whether items share a class exactly where they share a key.
pub open spec fn is_grouping(class_of: Seq<usize>, key: spec_fn(int) -> Seq<char>) -> bool {
    forall|i: int, j: int|
        0 <= i < class_of.len() && 0 <= j < class_of.len() ==> ((#[trigger] class_of[i]
            == #[trigger] class_of[j]) <==> key(i) == key(j))
}

/// Whether the larger class comes first, and of two equally large ones that
/// which appears first.
pub open spec fn largest_first(classes: Seq<Vec<usize>>) -> bool {
    forall|a: int, b: int|
        0 <= a < b < classes.len() ==> (#[trigger] classes[a])@.len() > (
        #[trigger] classes[b])@.len() || (classes[a]@.len() == classes[b]@.len() && classes[a]@[0]
            < classes[b]@[0])
}

/// Put equal keys together, in order of first appearance.
fn group_keys(keys: &Vec<String>) -> (r: (Vec<Vec<usize>>, Vec<usize>))
    ensures
        r.1@.len() == keys@.len(),
        is_partition(r.0@, r.1@),
        is_grouping(r.1@, |i: int| keys@[i]@),
        forall|a: int, b: int|
            0 <= a < b < r.0@.len() ==> (#[trigger] r.0@[a])@[0] < (#[trigger] r.0@[b])@[0],
{
    let mut groups: Vec<Vec<usize>> = Vec::new();
    let mut of: Vec<usize> = Vec::new();
    let ghost key = |i: int| keys@[i]@;
    for i in 0..keys.len()
        invariant
            key == (|i: int| keys@[i]@),
            of@.len() == i,
            is_partition(groups@, of@),
            is_grouping(of@, key),
            forall|a: int, b: int|
                0 <= a < b < groups@.len() ==> (#[trigger] groups@[a])@[0] < (
                #[trigger] groups@[b])@[0],
    {
        let mut g: usize = 0;
        while g < groups.len() && keys[groups[g][0]] != keys[i]
            invariant
                i < keys@.len(),
                of@.len() == i,
                is_partition(groups@, of@),
                g <= groups@.len(),
                forall|c: int| 0 <= c < g ==> keys@[(#[trigger] groups@[c])@[0] as int]@ != keys@[i as int]@,
            ensures
                g <= groups@.len(),
                forall|c: int| 0 <= c < g ==> keys@[(#[trigger] groups@[c])@[0] as int]@ != keys@[i as int]@,
                g < groups@.len() ==> keys@[groups@[g as int]@[0] as int]@ == keys@[i as int]@,
            decreases groups@.len() - g,
        {
            g = g + 1;
        }
        let ghost was = groups@;
        let ghost of_was = of@;
        proof {
            assert forall|j: int| 0 <= j < i implies ((#[trigger] of_was[j] == g) <==> key(j)
                == key(i as int)) by {
                let c = of_was[j] as int;
                let first = was[c]@[0] as int;
                assert(of_was[first] == c);
                assert(key(first) == key(j));
                if g < was.len() {
                    let h = was[g as int]@[0] as int;
                    assert(of_was[h] == g);
                    assert((of_was[h] == of_was[j]) <==> key(h) == key(j));
                }
            }
        }
        if g == groups.len() {
            let mut fresh: Vec<usize> = Vec::new();
            fresh.push(i);
            groups.push(fresh);
        } else {
            groups[g].push(i);
        }
        of.push(g);
        proof {
            let now = groups@;
            let mine = now[g as int]@;
            if g == was.len() {
                assert(mine =~= seq![i]);
            } else {
                assert(mine =~= was[g as int]@.push(i));
            }
            assert forall|c: int| 0 <= c < now.len() && c != g implies now[c] == was[c] by {}
            assert forall|c: int, k: int| 0 <= c < now.len() && 0 <= k < now[c]@.len() implies (
            #[trigger] now[c]@[k]) < of@.len() && of@[now[c]@[k] as int] == c by {
                if c != g {
                    assert(was[c]@[k] < of_was.len());
                } else if k < now[c]@.len() - 1 {
                    assert(was[c]@[k] < of_was.len());
                }
            }
            assert forall|j: int| 0 <= j < of@.len() implies #[trigger] now[of@[j] as int]@.contains(
                j as usize,
            ) by {
                if j == i {
                    assert(mine[mine.len() - 1] == i);
                } else {
                    assert(was[of_was[j] as int]@.contains(j as usize));
                    let q = choose|q: int|
                        0 <= q < was[of_was[j] as int]@.len() && was[of_was[j] as int]@[q]
                            == j as usize;
                    assert(now[of@[j] as int]@[q] == j as usize);
                }
            }
            assert forall|c: int| 0 <= c < now.len() implies (#[trigger] now[c])@.len() > 0
                && increasing(now[c]@) by {
                if c == g && g < was.len() {
                    assert(increasing(was[c]@));
                    assert forall|k: int| 0 <= k < was[c]@.len() implies was[c]@[k] < i by {
                        assert(was[c]@[k] < of_was.len());
                    }
                } else if c != g {
                    assert(increasing(was[c]@));
                }
            }
            assert(is_partition(now, of@));
            assert forall|a: int, b: int| 0 <= a < b < now.len() implies (#[trigger] now[a])@[0] < (
            #[trigger] now[b])@[0] by {
                assert(now[a]@[0] == was[a]@[0]);
                if b < was.len() {
                    assert(now[b]@[0] == was[b]@[0]);
                    assert(was[a]@[0] < was[b]@[0]);
                } else {
                    assert(was[a]@[0] < of_was.len());
                }
            }
        }
    }
    (groups, of)
}

/// Assign every hunk of a view to its shape class.
pub fn partition(view: &DiffView, langs: &LanguageRegistry) -> (r: Partition)
    requires
        view.wf(),
    ensures
        r.class_of@.len() == view.hunks@.len(),
        r.pure@.len() == r.classes@.len(),
        is_partition(r.classes@, r.class_of@),
        is_grouping(r.class_of@, |i: int| class_key(view, langs, i)),
        largest_first(r.classes@),
        forall|c: int|
            0 <= c < r.classes@.len() ==> #[trigger] r.pure@[c] == is_pure(
                &view.hunks@[r.classes@[c]@[0] as int],
                hunk_form(view, langs, r.classes@[c]@[0] as int),
            ),
{
    let mut keys: Vec<String> = Vec::new();
    for i in 0..view.hunks.len()
        invariant
            view.wf(),
            keys@.len() == i,
            forall|j: int| 0 <= j < i ==> (#[trigger] keys@[j])@ == class_key(view, langs, j),
    {
        let h = &view.hunks[i];
        let file = view.file_of(h);
        let lang = langs.detect(&file.path);
        proof {
            assert(form_of(&lang) =~= hunk_form(view, langs, i as int));
        }
        keys.push(shape_hash(h, file.disposition.letter(), file.generated.is_some(), &lang));
    }
    let (groups, of) = group_keys(&keys);
    let ghost lt = |i: int, j: int| groups@[i]@.len() > groups@[j]@.len();
    let less = |i: usize, j: usize| -> (r: bool)
        requires
            i < groups@.len(),
            j < groups@.len(),
        ensures
            r == (groups@[i as int]@.len() > groups@[j as int]@.len()),
        { groups[i].len() > groups[j].len() };
    let order = stable_order(groups.len(), less, Ghost(lt));
    let ghost n = view.hunks@.len() as int;

    // Where each group went.
    let mut rank: Vec<usize> = Vec::new();
    for g in 0..groups.len()
        invariant
            rank@.len() == g,
    {
        rank.push(0);
    }
    let mut classes: Vec<Vec<usize>> = Vec::new();
    let mut pure: Vec<bool> = Vec::new();
    for k in 0..order.len()
        invariant
            view.wf(),
            n == view.hunks@.len(),
            of@.len() == n,
            is_partition(groups@, of@),
            rank@.len() == groups@.len(),
            order@.len() == groups@.len(),
            forall|a: int| 0 <= a < order@.len() ==> (#[trigger] order@[a]) < groups@.len(),
            forall|a: int, b: int|
                0 <= a < b < order@.len() ==> stable_before(
                    lt,
                    #[trigger] order@[a] as int,
                    #[trigger] order@[b] as int,
                ),
            classes@.len() == k,
            pure@.len() == k,
            forall|a: int| 0 <= a < k ==> (#[trigger] classes@[a])@ == groups@[order@[a] as int]@,
            forall|a: int| 0 <= a < k ==> rank@[#[trigger] order@[a] as int] == a,
            forall|c: int|
                0 <= c < k ==> #[trigger] pure@[c] == is_pure(
                    &view.hunks@[classes@[c]@[0] as int],
                    hunk_form(view, langs, classes@[c]@[0] as int),
                ),
            lt == (|i: int, j: int| groups@[i]@.len() > groups@[j]@.len()),
    {
        let g = order[k];
        proof {
            assert forall|a: int| 0 <= a < k implies #[trigger] order@[a] != g by {
                assert(stable_before(lt, order@[a] as int, order@[k as int] as int));
            }
            assert(groups@[g as int]@.len() > 0);
            assert(groups@[g as int]@[0] < of@.len());
        }
        rank.set(g, k);
        let members = copy_indices(&groups[g]);
        let exemplar = &view.hunks[members[0]];
        let lang = langs.detect(&view.file_of(exemplar).path);
        proof {
            assert(form_of(&lang) =~= hunk_form(view, langs, members@[0] as int));
        }
        pure.push(pure_substitution(exemplar, &lang));
        classes.push(members);
    }
    let mut class_of: Vec<usize> = Vec::new();
    for i in 0..of.len()
        invariant
            rank@.len() == groups@.len(),
            forall|j: int| 0 <= j < of@.len() ==> (#[trigger] of@[j]) < groups@.len(),
            class_of@.len() == i,
            forall|j: int| 0 <= j < i ==> #[trigger] class_of@[j] == rank@[of@[j] as int],
    {
        class_of.push(rank[of[i]]);
    }
    proof {
        // `rank` undoes `order`.
        assert forall|g: int| 0 <= g < groups@.len() implies (#[trigger] rank@[g]) < order@.len()
            && order@[rank@[g] as int] == g by {
            assert(order@.contains(g as usize));
            let a = choose|a: int| 0 <= a < order@.len() && order@[a] == g as usize;
            assert(rank@[order@[a] as int] == a);
        }
        assert forall|c: int, k: int| 0 <= c < classes@.len() && 0 <= k < classes@[c]@.len() implies (
        #[trigger] classes@[c]@[k]) < class_of@.len() && class_of@[classes@[c]@[k] as int] == c by {
            let g = order@[c] as int;
            assert(groups@[g]@[k] < of@.len());
            assert(rank@[order@[c] as int] == c);
        }
        assert forall|i: int| 0 <= i < class_of@.len() implies #[trigger] classes@[class_of@[i] as int]@.contains(
            i as usize,
        ) by {
            let g = of@[i] as int;
            assert(groups@[g]@.contains(i as usize));
            assert(order@[rank@[g] as int] == g);
        }
        assert forall|c: int| 0 <= c < classes@.len() implies (#[trigger] classes@[c])@.len() > 0
            && increasing(classes@[c]@) by {
            assert(increasing(groups@[order@[c] as int]@));
        }
        assert forall|i: int| 0 <= i < class_of@.len() implies (#[trigger] class_of@[i])
            < classes@.len() by {
            assert(rank@[of@[i] as int] < order@.len());
        }
        assert(is_partition(classes@, class_of@));
        let key = |i: int| class_key(view, langs, i);
        assert forall|i: int, j: int| 0 <= i < n && 0 <= j < n implies ((#[trigger] class_of@[i]
            == #[trigger] class_of@[j]) <==> key(i) == key(j)) by {
            assert(order@[rank@[of@[i] as int] as int] == of@[i]);
            assert(order@[rank@[of@[j] as int] as int] == of@[j]);
            assert((of@[i] == of@[j]) <==> keys@[i]@ == keys@[j]@);
        }
        assert forall|a: int, b: int| 0 <= a < b < classes@.len() implies (
        #[trigger] classes@[a])@.len() > (#[trigger] classes@[b])@.len() || (classes@[a]@.len()
            == classes@[b]@.len() && classes@[a]@[0] < classes@[b]@[0]) by {
            assert(stable_before(lt, order@[a] as int, order@[b] as int));
            let x = order@[a] as int;
            let y = order@[b] as int;
            if x < y {
                assert(groups@[x]@[0] < groups@[y]@[0]);
            }
        }
    }
    Partition { classes, class_of, pure }
}

/// A copy of a list of indices.
pub fn copy_indices(s: &Vec<usize>) -> (r: Vec<usize>)
    ensures
        r@ == s@,
{
    vstd::slice::slice_to_vec(s.as_slice())
}

/// Identical text in a generated file and in a source file is never one shape:
/// what is hashed differs.
pub proof fn law_generated_is_part_of_the_shape(
    a: &Hunk,
    b: &Hunk,
    la: u8,
    lb: u8,
    fa: spec_fn(Seq<u8>) -> Seq<u8>,
    fb: spec_fn(Seq<u8>) -> Seq<u8>,
)
    ensures
        shape_preimage(a, la, true, fa) != shape_preimage(b, lb, false, fb),
{
    assert(shape_preimage(a, la, true, fa).last() == 103u8);
    assert(shape_preimage(b, lb, false, fb).last() == 46u8);
}

/// Hunks of files that changed in different ways are never one shape: what is
/// hashed differs.
pub proof fn law_disposition_is_part_of_the_shape(
    a: &Hunk,
    b: &Hunk,
    la: u8,
    lb: u8,
    ga: bool,
    gb: bool,
    fa: spec_fn(Seq<u8>) -> Seq<u8>,
    fb: spec_fn(Seq<u8>) -> Seq<u8>,
)
    requires
        la != lb,
    ensures
        shape_preimage(a, la, ga, fa) != shape_preimage(b, lb, gb, fb),
{
    let x = shape_preimage(a, la, ga, fa);
    let y = shape_preimage(b, lb, gb, fb);
    assert(x[x.len() - 3] == la);
    assert(y[y.len() - 3] == lb);
}

/// The digest covers the no-newline marks: what is hashed differs with them.
pub proof fn law_digest_covers_newline_marks(a: &Hunk, b: &Hunk)
    requires
        a.nonl_old != b.nonl_old || a.nonl_new != b.nonl_new,
    ensures
        digest_preimage(a) != digest_preimage(b),
{
    let x = digest_preimage(a);
    let y = digest_preimage(b);
    assert(x[x.len() - 1] == flag(a.nonl_new) && x[x.len() - 2] == flag(a.nonl_old));
    assert(y[y.len() - 1] == flag(b.nonl_new) && y[y.len() - 2] == flag(b.nonl_old));
}

/// The lines of one side without identifiers and literals, as a heap.
pub open spec fn forms(lines: Seq<Vec<u8>>, form: spec_fn(Seq<u8>) -> Seq<u8>) -> Multiset<
    Seq<u8>,
> {
    views(lines).map_values(form).to_multiset()
}

proof fn lemma_map_permuted<A, B>(a: Seq<A>, b: Seq<A>, f: spec_fn(A) -> B)
    requires
        a.to_multiset() == b.to_multiset(),
    ensures
        a.map_values(f).to_multiset() == b.map_values(f).to_multiset(),
    decreases a.len(),
{
    a.to_multiset_ensures();
    b.to_multiset_ensures();
    assert(a.len() == b.len());
    if b.len() > 0 {
        let x = b.last();
        assert(b.contains(x));
        assert(b.to_multiset().count(x) > 0);
        assert(a.contains(x));
        let i = choose|i: int| 0 <= i < a.len() && a[i] == x;
        assert(b.drop_last() =~= b.remove(b.len() - 1));
        a.remove(i).to_multiset_ensures();
        assert(a.remove(i).to_multiset() =~= b.drop_last().to_multiset());
        lemma_map_permuted(a.remove(i), b.drop_last(), f);
        let fa = a.map_values(f);
        let fb = b.map_values(f);
        fa.to_multiset_ensures();
        fb.to_multiset_ensures();
        assert(fa.remove(i) =~= a.remove(i).map_values(f));
        assert(fb.remove(b.len() - 1) =~= b.drop_last().map_values(f));
        assert(fa.to_multiset().remove(f(x)) == fb.to_multiset().remove(f(x)));
        assert(fa.contains(fa[i]) && fb.contains(fb[b.len() - 1]));
        assert(fa.to_multiset() =~= fa.to_multiset().remove(f(x)).insert(f(x)));
        assert(fb.to_multiset() =~= fb.to_multiset().remove(f(x)).insert(f(x)));
    } else {
        assert(a =~= b);
    }
}

proof fn lemma_normal_side_sorted(
    lines: &Vec<Vec<u8>>,
    sigil: u8,
    form: spec_fn(Seq<u8>) -> Seq<u8>,
)
    ensures
        normal_side(lines@, sigil, form).to_multiset() == marked_lines(
            lines@,
            sigil,
            form,
        ).to_multiset(),
        vstd::relations::sorted_by(
            normal_side(lines@, sigil, form),
            |a: Seq<u8>, b: Seq<u8>| !bytes_lt(b, a),
        ),
{
    let all = marked_lines(lines@, sigil, form);
    let f = |a: Seq<u8>, b: Seq<u8>| bytes_lt(a, b);
    let lt = |i: int, j: int| f(all[i], all[j]);
    assert forall|i: int, j: int, k: int| true implies {
        &&& !lt(i, i)
        &&& (#[trigger] lt(i, j) && #[trigger] lt(j, k) ==> lt(i, k))
        &&& (#[trigger] lt(i, k) ==> lt(i, j) || lt(j, k))
    } by {
        lemma_bytes_order(all[i], all[j], all[k]);
    }
    assert forall|i: int| !#[trigger] lt(i, i) by {
        lemma_bytes_order(all[i], all[i], all[i]);
    }
    assert(lines.len() <= usize::MAX);
    lemma_stable_exists(all.len(), lt);
    lemma_sorted_multiset(all, f);
    let perm = stable_perm(all.len() as int, lt);
    let out = normal_side(lines@, sigil, form);
    assert forall|i: int, j: int| 0 <= i < j < out.len() implies !bytes_lt(out[j], out[i]) by {
        assert(stable_before(lt, perm[i] as int, perm[j] as int));
        lemma_bytes_order(out[i], out[j], out[i]);
    }
}

proof fn lemma_marked_forms(
    lines: Seq<Vec<u8>>,
    sigil: u8,
    form: spec_fn(Seq<u8>) -> Seq<u8>,
)
    ensures
        marked_lines(lines, sigil, form) == views(lines).map_values(form).map_values(
            |x: Seq<u8>| seq![sigil] + x,
        ),
        views(lines).map_values(form) == marked_lines(lines, sigil, form).map_values(
            |x: Seq<u8>| x.drop_first(),
        ),
{
    assert(marked_lines(lines, sigil, form) =~= views(lines).map_values(form).map_values(
        |x: Seq<u8>| seq![sigil] + x,
    ));
    let back = marked_lines(lines, sigil, form).map_values(|x: Seq<u8>| x.drop_first());
    assert forall|i: int| 0 <= i < lines.len() implies back[i] == form(lines[i]@) by {
        assert((seq![sigil] + form(lines[i]@)).drop_first() =~= form(lines[i]@));
    }
    assert(views(lines).map_values(form) =~= back);
}

proof fn lemma_sorted_lines_unique(x: Seq<Seq<u8>>, y: Seq<Seq<u8>>)
    requires
        vstd::relations::sorted_by(x, |a: Seq<u8>, b: Seq<u8>| !bytes_lt(b, a)),
        vstd::relations::sorted_by(y, |a: Seq<u8>, b: Seq<u8>| !bytes_lt(b, a)),
        x.to_multiset() == y.to_multiset(),
    ensures
        x == y,
{
    let leq = |a: Seq<u8>, b: Seq<u8>| !bytes_lt(b, a);
    assert(vstd::relations::total_ordering(leq)) by {
        assert forall|x: Seq<u8>, y: Seq<u8>, z: Seq<u8>| true implies {
            &&& leq(x, x)
            &&& (#[trigger] leq(x, y) && leq(y, x) ==> x == y)
            &&& (leq(x, y) && #[trigger] leq(y, z) ==> leq(x, z))
            &&& (leq(x, y) || leq(y, x))
        } by {
            lemma_bytes_order(x, y, z);
            lemma_bytes_order(z, x, y);
            lemma_bytes_order(z, y, x);
            lemma_bytes_order(y, x, y);
            lemma_bytes_order(x, y, x);
        }
        assert forall|x: Seq<u8>| #[trigger] leq(x, x) by {
            lemma_bytes_order(x, x, x);
        }
    }
    vstd::seq_lib::lemma_sorted_unique(x, y, leq);
}

/// A hunk is a pure substitution exactly where both of its sides have lines and, as
/// heaps, the lines are the same without identifiers and literals.
pub proof fn law_pure_compares_heaps(hunk: &Hunk, form: spec_fn(Seq<u8>) -> Seq<u8>)
    ensures
        is_pure(hunk, form) <==> hunk.removed@.len() > 0 && hunk.added@.len() > 0 && forms(
            hunk.removed@,
            form,
        ) == forms(hunk.added@, form),
{
    let (a, b) = (hunk.removed@, hunk.added@);
    let mark = |x: Seq<u8>| seq![32u8] + x;
    let bare = |x: Seq<u8>| x.drop_first();
    lemma_normal_side_sorted(&hunk.removed, 32u8, form);
    lemma_normal_side_sorted(&hunk.added, 32u8, form);
    lemma_marked_forms(a, 32u8, form);
    lemma_marked_forms(b, 32u8, form);
    if forms(a, form) == forms(b, form) {
        lemma_map_permuted(views(a).map_values(form), views(b).map_values(form), mark);
        lemma_sorted_lines_unique(normal_side(a, 32u8, form), normal_side(b, 32u8, form));
    }
    if normal_side(a, 32u8, form) == normal_side(b, 32u8, form) {
        lemma_map_permuted(marked_lines(a, 32u8, form), marked_lines(b, 32u8, form), bare);
    }
}

/// Whether a hunk is a pure substitution does not change when its sides are exchanged.
pub proof fn law_pure_is_symmetric(
    hunk: &Hunk,
    exchanged: &Hunk,
    form: spec_fn(Seq<u8>) -> Seq<u8>,
)
    requires
        views(exchanged.removed@) == views(hunk.added@),
        views(exchanged.added@) == views(hunk.removed@),
    ensures
        is_pure(hunk, form) == is_pure(exchanged, form),
{
    law_pure_compares_heaps(hunk, form);
    law_pure_compares_heaps(exchanged, form);
    assert(views(exchanged.removed@).len() == views(hunk.added@).len());
    assert(views(exchanged.added@).len() == views(hunk.removed@).len());
}

/// Nor does it change when the lines of either side are put in another order.
pub proof fn law_pure_ignores_the_order_of_lines(
    hunk: &Hunk,
    reordered: &Hunk,
    form: spec_fn(Seq<u8>) -> Seq<u8>,
)
    requires
        views(reordered.removed@).to_multiset() == views(hunk.removed@).to_multiset(),
        views(reordered.added@).to_multiset() == views(hunk.added@).to_multiset(),
    ensures
        is_pure(hunk, form) == is_pure(reordered, form),
{
    law_pure_compares_heaps(hunk, form);
    law_pure_compares_heaps(reordered, form);
    lemma_map_permuted(views(reordered.removed@), views(hunk.removed@), form);
    lemma_map_permuted(views(reordered.added@), views(hunk.added@), form);
    views(reordered.removed@).to_multiset_ensures();
    views(hunk.removed@).to_multiset_ensures();
    views(reordered.added@).to_multiset_ensures();
    views(hunk.added@).to_multiset_ensures();
}

// ---------------------------------------------------------------------------
// What the keys tell apart

/// Whether no line of a side has a newline in its normal form.
pub open spec fn forms_on_one_line(
    lines: Seq<Vec<u8>>,
    form: spec_fn(Seq<u8>) -> Seq<u8>,
) -> bool {
    forall|i: int| 0 <= i < lines.len() ==> !form(#[trigger] lines[i]@).contains(10u8)
}

/// Whether two hunks are the same edit with identifiers and literals erased: the lines
/// of the removed sides match as heaps, and so do those of the added sides.
pub open spec fn same_edit(
    a: &Hunk,
    fa: spec_fn(Seq<u8>) -> Seq<u8>,
    b: &Hunk,
    fb: spec_fn(Seq<u8>) -> Seq<u8>,
) -> bool {
    &&& views(a.removed@).map_values(fa).to_multiset() == views(b.removed@).map_values(
        fb,
    ).to_multiset()
    &&& views(a.added@).map_values(fa).to_multiset() == views(b.added@).map_values(
        fb,
    ).to_multiset()
}

/// Two lists of marked lines behind one another say which lines belong to which.
proof fn lemma_two_marks(
    a: Seq<Seq<u8>>,
    b: Seq<Seq<u8>>,
    c: Seq<Seq<u8>>,
    d: Seq<Seq<u8>>,
    m: u8,
    n: u8,
)
    requires
        m != n,
        forall|i: int| 0 <= i < a.len() ==> (#[trigger] a[i]).len() > 0 && a[i][0] == m,
        forall|i: int| 0 <= i < c.len() ==> (#[trigger] c[i]).len() > 0 && c[i][0] == m,
        forall|i: int| 0 <= i < b.len() ==> (#[trigger] b[i]).len() > 0 && b[i][0] == n,
        forall|i: int| 0 <= i < d.len() ==> (#[trigger] d[i]).len() > 0 && d[i][0] == n,
        a + b == c + d,
    ensures
        a == c,
        b == d,
{
    if a.len() < c.len() {
        assert((a + b)[a.len() as int] == b[0]);
        assert((c + d)[a.len() as int] == c[a.len() as int]);
    }
    if c.len() < a.len() {
        assert((c + d)[c.len() as int] == d[0]);
        assert((a + b)[c.len() as int] == a[c.len() as int]);
    }
    let (ab, cd) = (a.add(b), c.add(d));
    assert(ab.len() == a.len() + b.len());
    assert(cd.len() == c.len() + d.len());
    assert(a.len() == c.len() && b.len() == d.len());
    assert forall|i: int| 0 <= i < a.len() implies a[i] == c[i] by {
        assert((a + b)[i] == (c + d)[i]);
    }
    assert(a =~= c);
    assert forall|i: int| 0 <= i < b.len() implies b[i] == d[i] by {
        assert((a + b)[a.len() + i] == b[i]);
        assert((c + d)[c.len() + i] == d[i]);
    }
    assert(b =~= d);
}

/// Lists that join to one text are one list.
proof fn lemma_join_tells_parts(a: Seq<Seq<u8>>, b: Seq<Seq<u8>>, sep: u8)
    requires
        join(a, sep) == join(b, sep),
        forall|i: int|
            0 <= i < a.len() ==> (#[trigger] a[i]).len() > 0 && !a[i].contains(sep),
        forall|i: int|
            0 <= i < b.len() ==> (#[trigger] b[i]).len() > 0 && !b[i].contains(sep),
    ensures
        a == b,
{
    if a.len() > 0 {
        law_split_undoes_join(a, sep);
        assert(join(a, sep).len() > 0) by {
            if a.len() == 1 {
                assert(a[0].len() > 0);
            }
        }
    }
    if b.len() > 0 {
        law_split_undoes_join(b, sep);
        assert(join(b, sep).len() > 0) by {
            if b.len() == 1 {
                assert(b[0].len() > 0);
            }
        }
    }
    if a.len() == 0 || b.len() == 0 {
        assert(a =~= b);
    }
}

/// The lines of a side in normal form keep their mark and hold no newline.
proof fn lemma_normal_lines(
    lines: &Vec<Vec<u8>>,
    sigil: u8,
    form: spec_fn(Seq<u8>) -> Seq<u8>,
)
    requires
        forms_on_one_line(lines@, form),
        sigil != 10u8,
    ensures
        forall|i: int|
            0 <= i < normal_side(lines@, sigil, form).len() ==> (#[trigger] normal_side(
                lines@,
                sigil,
                form,
            )[i]).len() > 0 && normal_side(lines@, sigil, form)[i][0] == sigil && !normal_side(
                lines@,
                sigil,
                form,
            )[i].contains(10u8),
{
    let all = marked_lines(lines@, sigil, form);
    let out = normal_side(lines@, sigil, form);
    lemma_normal_side_sorted(lines, sigil, form);
    assert forall|i: int| 0 <= i < out.len() implies (#[trigger] out[i]).len() > 0 && out[i][0]
        == sigil && !out[i].contains(10u8) by {
        out.to_multiset_ensures();
        all.to_multiset_ensures();
        assert(out.contains(out[i]));
        assert(out.to_multiset().count(out[i]) > 0);
        assert(all.contains(out[i]));
        let k = choose|k: int| 0 <= k < all.len() && all[k] == out[i];
        assert(!form(lines@[k]@).contains(10u8));
        if out[i].contains(10u8) {
            let x = choose|x: int| 0 <= x < out[i].len() && out[i][x] == 10u8;
            assert(x > 0);
            assert(form(lines@[k]@)[x - 1] == 10u8);
        }
    }
}

/// What is hashed for two hunks is the same text only where they are the same edit on
/// both sides, of files that changed in the same way and are both generated or both not.
proof fn lemma_preimage_tells_edits(
    a: &Hunk,
    la: u8,
    ga: bool,
    fa: spec_fn(Seq<u8>) -> Seq<u8>,
    b: &Hunk,
    lb: u8,
    gb: bool,
    fb: spec_fn(Seq<u8>) -> Seq<u8>,
)
    requires
        forms_on_one_line(a.removed@, fa),
        forms_on_one_line(a.added@, fa),
        forms_on_one_line(b.removed@, fb),
        forms_on_one_line(b.added@, fb),
        shape_preimage(a, la, ga, fa) == shape_preimage(b, lb, gb, fb),
    ensures
        la == lb,
        ga == gb,
        same_edit(a, fa, b, fb),
{
    let (ar, aa) = (normal_side(a.removed@, 45u8, fa), normal_side(a.added@, 43u8, fa));
    let (br, ba) = (normal_side(b.removed@, 45u8, fb), normal_side(b.added@, 43u8, fb));
    let x = shape_preimage(a, la, ga, fa);
    let y = shape_preimage(b, lb, gb, fb);
    let jx = join(ar + aa, 10u8);
    let jy = join(br + ba, 10u8);
    assert(x.len() == jx.len() + 4 && y.len() == jy.len() + 4);
    assert(x.take(jx.len() as int) =~= jx);
    assert(y.take(jy.len() as int) =~= jy);
    assert(x[x.len() - 3] == la && y[y.len() - 3] == lb);
    assert(x[x.len() - 1] == (if ga {
        103u8
    } else {
        46u8
    }));
    assert(y[y.len() - 1] == (if gb {
        103u8
    } else {
        46u8
    }));
    lemma_normal_lines(&a.removed, 45u8, fa);
    lemma_normal_lines(&a.added, 43u8, fa);
    lemma_normal_lines(&b.removed, 45u8, fb);
    lemma_normal_lines(&b.added, 43u8, fb);
    lemma_join_tells_parts(ar + aa, br + ba, 10u8);
    lemma_two_marks(ar, aa, br, ba, 45u8, 43u8);
    lemma_side_tells_forms(&a.removed, fa, &b.removed, fb, 45u8);
    lemma_side_tells_forms(&a.added, fa, &b.added, fb, 43u8);
}

proof fn lemma_side_tells_forms(
    a: &Vec<Vec<u8>>,
    fa: spec_fn(Seq<u8>) -> Seq<u8>,
    b: &Vec<Vec<u8>>,
    fb: spec_fn(Seq<u8>) -> Seq<u8>,
    mark: u8,
)
    ensures
        normal_side(a@, mark, fa) == normal_side(b@, mark, fb) <==> views(a@).map_values(
            fa,
        ).to_multiset() == views(b@).map_values(fb).to_multiset(),
{
    let front = |x: Seq<u8>| seq![mark] + x;
    let bare = |x: Seq<u8>| x.drop_first();
    lemma_normal_side_sorted(a, mark, fa);
    lemma_normal_side_sorted(b, mark, fb);
    lemma_marked_forms(a@, mark, fa);
    lemma_marked_forms(b@, mark, fb);
    if views(a@).map_values(fa).to_multiset() == views(b@).map_values(fb).to_multiset() {
        lemma_map_permuted(views(a@).map_values(fa), views(b@).map_values(fb), front);
        lemma_sorted_lines_unique(normal_side(a@, mark, fa), normal_side(b@, mark, fb));
    }
    if normal_side(a@, mark, fa) == normal_side(b@, mark, fb) {
        lemma_map_permuted(marked_lines(a@, mark, fa), marked_lines(b@, mark, fb), bare);
    }
}

/// Two hunks have one shape only where they are the same edit: with identifiers and
/// literals erased, the removed lines of the one are those of the other and the added
/// lines are too, the files changed in the same way, and both are generated or neither
/// is. What the hash is taken of differs otherwise, so that only a collision of SHA-1
/// could give one shape to two edits.
pub proof fn law_one_shape_is_one_edit<L: Language + ?Sized, M: Language + ?Sized>(
    a: &Hunk,
    la: u8,
    ga: bool,
    lang_a: &L,
    ra: String,
    b: &Hunk,
    lb: u8,
    gb: bool,
    lang_b: &M,
    rb: String,
)
    requires
        call_ensures(shape_hash::<L>, (a, la, ga, lang_a), ra),
        call_ensures(shape_hash::<M>, (b, lb, gb, lang_b), rb),
        forms_on_one_line(a.removed@, |l: Seq<u8>| lang_a.normal_form(l)),
        forms_on_one_line(a.added@, |l: Seq<u8>| lang_a.normal_form(l)),
        forms_on_one_line(b.removed@, |l: Seq<u8>| lang_b.normal_form(l)),
        forms_on_one_line(b.added@, |l: Seq<u8>| lang_b.normal_form(l)),
    ensures
        exists|x: Seq<u8>, y: Seq<u8>|
            {
                &&& ra@ == hex_text(#[trigger] sha1_digest(x)).take(12)
                &&& rb@ == hex_text(#[trigger] sha1_digest(y)).take(12)
                &&& x == y ==> la == lb && ga == gb && same_edit(
                    a,
                    |l: Seq<u8>| lang_a.normal_form(l),
                    b,
                    |l: Seq<u8>| lang_b.normal_form(l),
                )
            },
{
    let fa = form_of(lang_a);
    let fb = form_of(lang_b);
    assert(fa =~= (|l: Seq<u8>| lang_a.normal_form(l)));
    assert(fb =~= (|l: Seq<u8>| lang_b.normal_form(l)));
    let x = shape_preimage(a, la, ga, fa);
    let y = shape_preimage(b, lb, gb, fb);
    if x == y {
        lemma_preimage_tells_edits(a, la, ga, fa, b, lb, gb, fb);
    }
    assert(ra@ == hex_text(sha1_digest(x)).take(12));
    assert(rb@ == hex_text(sha1_digest(y)).take(12));
}

/// Hunks that are the same edit have one shape, wherever they stand and in whatever
/// order their lines come.
pub proof fn law_one_edit_is_one_shape<L: Language + ?Sized, M: Language + ?Sized>(
    a: &Hunk,
    lang_a: &L,
    ra: String,
    b: &Hunk,
    lang_b: &M,
    rb: String,
    letter: u8,
    generated: bool,
)
    requires
        call_ensures(shape_hash::<L>, (a, letter, generated, lang_a), ra),
        call_ensures(shape_hash::<M>, (b, letter, generated, lang_b), rb),
        same_edit(
            a,
            |l: Seq<u8>| lang_a.normal_form(l),
            b,
            |l: Seq<u8>| lang_b.normal_form(l),
        ),
    ensures
        ra@ == rb@,
{
    let fa = form_of(lang_a);
    let fb = form_of(lang_b);
    assert(fa =~= (|l: Seq<u8>| lang_a.normal_form(l)));
    assert(fb =~= (|l: Seq<u8>| lang_b.normal_form(l)));
    lemma_side_tells_forms(&a.removed, fa, &b.removed, fb, 45u8);
    lemma_side_tells_forms(&a.added, fa, &b.added, fb, 43u8);
}

/// The digest is of the whole content: two hunks whose removed lines, added lines or
/// no-newline marks differ are never hashed as one text, so that only a collision of
/// SHA-1 could confuse them. And it is of nothing else: a hunk that moved keeps it.
pub proof fn law_digest_is_of_the_content(a: &Hunk, ra: String, b: &Hunk, rb: String)
    requires
        call_ensures(hunk_digest, (a,), ra),
        call_ensures(hunk_digest, (b,), rb),
        forall|i: int| 0 <= i < a.removed@.len() ==> !(#[trigger] a.removed@[i])@.contains(10u8),
        forall|i: int| 0 <= i < a.added@.len() ==> !(#[trigger] a.added@[i])@.contains(10u8),
        forall|i: int| 0 <= i < b.removed@.len() ==> !(#[trigger] b.removed@[i])@.contains(10u8),
        forall|i: int| 0 <= i < b.added@.len() ==> !(#[trigger] b.added@[i])@.contains(10u8),
    ensures
        exists|x: Seq<u8>, y: Seq<u8>|
            {
                &&& ra@ == hex_text(#[trigger] sha1_digest(x))
                &&& rb@ == hex_text(#[trigger] sha1_digest(y))
                &&& x == y <==> {
                    &&& views(a.removed@) == views(b.removed@)
                    &&& views(a.added@) == views(b.added@)
                    &&& a.nonl_old == b.nonl_old
                    &&& a.nonl_new == b.nonl_new
                }
            },
        views(a.removed@) == views(b.removed@) && views(a.added@) == views(b.added@)
            && a.nonl_old == b.nonl_old && a.nonl_new == b.nonl_new ==> ra@ == rb@,
{
    let x = digest_preimage(a);
    let y = digest_preimage(b);
    let (ar, aa) = (bare_marked(a.removed@, 45u8), bare_marked(a.added@, 43u8));
    let (br, ba) = (bare_marked(b.removed@, 45u8), bare_marked(b.added@, 43u8));
    let ea = seq![flag(a.nonl_old), flag(a.nonl_new)];
    let eb = seq![flag(b.nonl_old), flag(b.nonl_new)];
    lemma_digest_joins(a, ar, aa, ea);
    lemma_digest_joins(b, br, ba, eb);
    let pa = (ar + aa).push(ea);
    let pb = (br + ba).push(eb);
    lemma_marked_plain(a.removed@, 45u8);
    lemma_marked_plain(a.added@, 43u8);
    lemma_marked_plain(b.removed@, 45u8);
    lemma_marked_plain(b.added@, 43u8);
    law_split_undoes_join(pa, 10u8);
    law_split_undoes_join(pb, 10u8);
    if x == y {
        assert(pa == pb);
        assert(pa.drop_last() =~= ar + aa);
        assert(pb.drop_last() =~= br + ba);
        assert(pa.last() == ea && pb.last() == eb);
        assert(ea[0] == eb[0] && ea[1] == eb[1]);
        lemma_two_marks(ar, aa, br, ba, 45u8, 43u8);
        lemma_bare_marked_tells(a.removed@, b.removed@, 45u8);
        lemma_bare_marked_tells(a.added@, b.added@, 43u8);
    }
    if views(a.removed@) == views(b.removed@) && views(a.added@) == views(b.added@) && a.nonl_old
        == b.nonl_old && a.nonl_new == b.nonl_new {
        assert(ar =~= br) by {
            assert(views(a.removed@).len() == views(b.removed@).len());
            assert forall|i: int| 0 <= i < ar.len() implies ar[i] == br[i] by {
                assert(views(a.removed@)[i] == views(b.removed@)[i]);
            }
        }
        assert(aa =~= ba) by {
            assert(views(a.added@).len() == views(b.added@).len());
            assert forall|i: int| 0 <= i < aa.len() implies aa[i] == ba[i] by {
                assert(views(a.added@)[i] == views(b.added@)[i]);
            }
        }
    }
    assert(ra@ == hex_text(sha1_digest(x)));
    assert(rb@ == hex_text(sha1_digest(y)));
}

spec fn bare_marked(lines: Seq<Vec<u8>>, mark: u8) -> Seq<Seq<u8>> {
    Seq::new(lines.len(), |i: int| seq![mark] + lines[i]@)
}

proof fn lemma_marked_plain(lines: Seq<Vec<u8>>, mark: u8)
    requires
        mark != 10u8,
        forall|i: int| 0 <= i < lines.len() ==> !(#[trigger] lines[i])@.contains(10u8),
    ensures
        forall|i: int|
            0 <= i < lines.len() ==> (#[trigger] bare_marked(lines, mark)[i]).len() > 0
                && bare_marked(lines, mark)[i][0] == mark && !bare_marked(lines, mark)[i].contains(
                10u8,
            ),
{
    assert forall|i: int| 0 <= i < lines.len() implies (#[trigger] bare_marked(lines, mark)[i]).len()
        > 0 && bare_marked(lines, mark)[i][0] == mark && !bare_marked(lines, mark)[i].contains(
        10u8,
    ) by {
        let l = bare_marked(lines, mark)[i];
        assert(!lines[i]@.contains(10u8));
        if l.contains(10u8) {
            let x = choose|x: int| 0 <= x < l.len() && l[x] == 10u8;
            assert(x > 0);
            assert(lines[i]@[x - 1] == 10u8);
        }
    }
}

proof fn lemma_bare_marked_tells(a: Seq<Vec<u8>>, b: Seq<Vec<u8>>, mark: u8)
    requires
        bare_marked(a, mark) == bare_marked(b, mark),
    ensures
        views(a) == views(b),
{
    let (x, y) = (bare_marked(a, mark), bare_marked(b, mark));
    assert(x.len() == a.len());
    assert(y.len() == b.len());
    assert forall|i: int| 0 <= i < a.len() implies a[i]@ == b[i]@ by {
        assert(bare_marked(b, mark)[i] == seq![mark] + b[i]@);
        assert(bare_marked(a, mark)[i] == bare_marked(b, mark)[i]);
        assert(bare_marked(a, mark)[i].drop_first() =~= a[i]@);
        assert(bare_marked(b, mark)[i].drop_first() =~= b[i]@);
    }
    assert(views(a) =~= views(b));
}

/// Text made of lines is the lines joined, with an empty last one.
proof fn lemma_marked_joins(parts: Seq<Seq<u8>>, lines: Seq<Vec<u8>>, mark: u8, end: Seq<u8>)
    ensures
        join((parts + bare_marked(lines, mark)).push(end), 10u8) == join(
            parts.push(Seq::<u8>::empty()),
            10u8,
        ) + marked_text(lines, mark) + end,
    decreases lines.len(),
{
    if lines.len() == 0 {
        assert(parts + bare_marked(lines, mark) =~= parts);
        lemma_join_last(parts, end);
        lemma_join_last(parts, Seq::empty());
        assert(join(parts.push(end), 10u8) =~= join(parts.push(Seq::<u8>::empty()), 10u8)
            + marked_text(lines, mark) + end);
    } else {
        let front = lines.drop_last();
        let l = seq![mark] + lines.last()@;
        lemma_marked_joins(parts, front, mark, l);
        let now = parts + bare_marked(lines, mark);
        assert(now =~= (parts + bare_marked(front, mark)).push(l));
        assert(now.push(end).drop_last() =~= now);
        assert(join(now.push(end), 10u8) == join(now, 10u8).push(10u8) + end);
        assert(join(now.push(end), 10u8) =~= join(parts.push(Seq::<u8>::empty()), 10u8)
            + marked_text(lines, mark) + end);
    }
}

proof fn lemma_join_last(parts: Seq<Seq<u8>>, end: Seq<u8>)
    ensures
        join(parts.push(end), 10u8) == (if parts.len() == 0 {
            end
        } else {
            join(parts, 10u8).push(10u8) + end
        }),
{
    assert(parts.push(end).drop_last() =~= parts);
}

proof fn lemma_digest_joins(h: &Hunk, r: Seq<Seq<u8>>, a: Seq<Seq<u8>>, end: Seq<u8>)
    requires
        r == bare_marked(h.removed@, 45u8),
        a == bare_marked(h.added@, 43u8),
        end == seq![flag(h.nonl_old), flag(h.nonl_new)],
    ensures
        digest_preimage(h) == join((r + a).push(end), 10u8),
        !end.contains(10u8),
{
    let none = Seq::<Seq<u8>>::empty();
    lemma_marked_joins(r, h.added@, 43u8, end);
    lemma_marked_joins(none, h.removed@, 45u8, Seq::empty());
    lemma_join_last(none, Seq::empty());
    assert(none + r =~= r);
    assert(digest_preimage(h) =~= join((r + a).push(end), 10u8));
}

/// A class is one edit. Hunks of files that changed in the same way, both generated or
/// both not, share a class where they are the same edit; and two hunks share a class
/// only where they are, unless two texts collide in twelve digits of SHA-1.
pub proof fn law_a_class_is_one_edit(
    view: &DiffView,
    langs: &LanguageRegistry,
    r: Partition,
    i: int,
    j: int,
)
    requires
        view.wf(),
        call_ensures(partition, (view, langs), r),
        0 <= i < view.hunks@.len(),
        0 <= j < view.hunks@.len(),
    ensures
        ({
            let (a, b) = (view.hunks@[i], view.hunks@[j]);
            let (f, g) = (view.files@[a.file as int], view.files@[b.file as int]);
            let fa = |l: Seq<u8>| langs.form_of(f.path@, l);
            let fb = |l: Seq<u8>| langs.form_of(g.path@, l);
            let alike = same_edit(&a, fa, &b, fb) && f.disposition == g.disposition && (
            f.generated is Some <==> g.generated is Some);
            &&& alike ==> r.class_of@[i] == r.class_of@[j]
            &&& forms_on_one_line(a.removed@, fa) && forms_on_one_line(a.added@, fa)
                && forms_on_one_line(b.removed@, fb) && forms_on_one_line(b.added@, fb)
                ==> exists|x: Seq<u8>, y: Seq<u8>|
                {
                    &&& r.class_of@[i] == r.class_of@[j] <==> hex_text(
                        #[trigger] sha1_digest(x),
                    ).take(12) == hex_text(#[trigger] sha1_digest(y)).take(12)
                    &&& x == y ==> alike
                }
        }),
{
    let (a, b) = (view.hunks@[i], view.hunks@[j]);
    let (f, g) = (view.files@[a.file as int], view.files@[b.file as int]);
    let fa = |l: Seq<u8>| langs.form_of(f.path@, l);
    let fb = |l: Seq<u8>| langs.form_of(g.path@, l);
    assert(hunk_form(view, langs, i) =~= fa);
    assert(hunk_form(view, langs, j) =~= fb);
    let (la, lb) = (f.disposition.letter_of(), g.disposition.letter_of());
    let (ga, gb) = (f.generated is Some, g.generated is Some);
    let x = shape_preimage(&a, la, ga, fa);
    let y = shape_preimage(&b, lb, gb, fb);
    let key = |k: int| class_key(view, langs, k);
    assert((r.class_of@[i] == r.class_of@[j]) <==> key(i) == key(j));
    assert(key(i) == hex_text(sha1_digest(x)).take(12));
    assert(key(j) == hex_text(sha1_digest(y)).take(12));
    if same_edit(&a, fa, &b, fb) && f.disposition == g.disposition && ga == gb {
        lemma_side_tells_forms(&a.removed, fa, &b.removed, fb, 45u8);
        lemma_side_tells_forms(&a.added, fa, &b.added, fb, 43u8);
    }
    if forms_on_one_line(a.removed@, fa) && forms_on_one_line(a.added@, fa) && forms_on_one_line(
        b.removed@,
        fb,
    ) && forms_on_one_line(b.added@, fb) && x == y {
        lemma_preimage_tells_edits(&a, la, ga, fa, &b, lb, gb, fb);
    }
}

/// Every hunk is in one class, classes have members, the larger class comes first, and
/// a class is marked pure where its first hunk has lines on both sides that match, as
/// heaps, once identifiers and literals are erased.
pub proof fn law_classes_hold_every_hunk_once(
    view: &DiffView,
    langs: &LanguageRegistry,
    r: Partition,
)
    requires
        view.wf(),
        call_ensures(partition, (view, langs), r),
    ensures
        r.class_of@.len() == view.hunks@.len(),
        forall|h: int, c: int|
            0 <= h < view.hunks@.len() && 0 <= c < r.classes@.len() ==> (#[trigger] r.class_of@[h]
                == c <==> (#[trigger] r.classes@[c])@.contains(h as usize)),
        forall|h: int| 0 <= h < view.hunks@.len() ==> (#[trigger] r.class_of@[h]) < r.classes@.len(),
        forall|c: int, k: int|
            0 <= c < r.classes@.len() && 0 <= k < r.classes@[c]@.len() ==> (
            #[trigger] r.classes@[c]@[k]) < view.hunks@.len(),
        forall|c: int| 0 <= c < r.classes@.len() ==> (#[trigger] r.classes@[c])@.len() > 0,
        forall|c: int, k: int, l: int|
            0 <= c < r.classes@.len() && 0 <= k < l < r.classes@[c]@.len()
                ==> #[trigger] r.classes@[c]@[k] < #[trigger] r.classes@[c]@[l],
        forall|c: int, d: int|
            0 <= c < d < r.classes@.len() ==> (#[trigger] r.classes@[c])@.len() >= (
            #[trigger] r.classes@[d])@.len(),
        r.pure@.len() == r.classes@.len(),
        forall|c: int|
            0 <= c < r.classes@.len() ==> ({
                let h = view.hunks@[r.classes@[c]@[0] as int];
                let form = |l: Seq<u8>| langs.form_of(view.files@[h.file as int].path@, l);
                #[trigger] r.pure@[c] <==> h.removed@.len() > 0 && h.added@.len() > 0 && views(
                    h.removed@,
                ).map_values(form).to_multiset() == views(h.added@).map_values(form).to_multiset()
            }),
{
    assert forall|h: int, c: int|
        0 <= h < view.hunks@.len() && 0 <= c < r.classes@.len() implies (#[trigger] r.class_of@[h]
        == c <==> (#[trigger] r.classes@[c])@.contains(h as usize)) by {
        assert(r.classes@[r.class_of@[h] as int]@.contains(h as usize));
        if r.classes@[c]@.contains(h as usize) {
            let k = choose|k: int|
                0 <= k < r.classes@[c]@.len() && r.classes@[c]@[k] == h as usize;
            assert(r.class_of@[r.classes@[c]@[k] as int] == c);
            assert(view.hunks.len() <= usize::MAX);
        }
    }
    assert forall|c: int| 0 <= c < r.classes@.len() implies ({
        let h = view.hunks@[r.classes@[c]@[0] as int];
        let form = |l: Seq<u8>| langs.form_of(view.files@[h.file as int].path@, l);
        #[trigger] r.pure@[c] <==> h.removed@.len() > 0 && h.added@.len() > 0 && views(
            h.removed@,
        ).map_values(form).to_multiset() == views(h.added@).map_values(form).to_multiset()
    }) by {
        let at = r.classes@[c]@[0] as int;
        let h = view.hunks@[at];
        let form = |l: Seq<u8>| langs.form_of(view.files@[h.file as int].path@, l);
        assert(hunk_form(view, langs, at) =~= form);
        law_pure_compares_heaps(&h, form);
    }
    assert forall|c: int, k: int, l: int|
        0 <= c < r.classes@.len() && 0 <= k < l < r.classes@[c]@.len() implies #[trigger]
        r.classes@[c]@[k] < #[trigger] r.classes@[c]@[l] by {
        assert(increasing(r.classes@[c]@));
    }
}

/// A class is not smaller than one behind it; of two equally large ones the first is the
/// one whose first hunk comes first. The hunks of a class come in their order.
pub proof fn law_larger_classes_come_first(
    view: &DiffView,
    langs: &LanguageRegistry,
    r: Partition,
    a: int,
    b: int,
)
    requires
        call_ensures(partition, (view, langs), r),
        0 <= a < b < r.classes@.len(),
    ensures
        r.classes@[a]@.len() >= r.classes@[b]@.len(),
        r.classes@[a]@.len() == r.classes@[b]@.len() ==> r.classes@[a]@[0] < r.classes@[b]@[0],
        forall|i: int, j: int|
            0 <= i < j < r.classes@[a]@.len() ==> r.classes@[a]@[i] < r.classes@[a]@[j],
{
    assert(increasing(r.classes@[a]@));
}

} // verus!
