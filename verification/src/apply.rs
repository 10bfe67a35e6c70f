//! Byte-exact hunk applier.
//!
//! CRLF asymmetry, by design: this module is byte-faithful. `\\r` stays attached
//! to line content and round-trips exactly. Only the shape normaliser is
//! CRLF-agnostic.
use vstd::prelude::*;

use crate::model::Hunk;
use crate::seqs::{
    copy_bytes, join, join_bytes, law_join_undoes_split, lemma_increasing_unique,
    lemma_stable_exists, sorted_by, split, split_bytes, stable_before, stable_order, stable_perm,
    views,
};

verus! {

/// The lines of a base text. An absent file is one empty line, not zero lines:
/// the trailing empty element is what encodes "ends with a newline".
pub open spec fn base_lines(base: Option<Seq<u8>>) -> Seq<Seq<u8>> {
    match base {
        Some(b) => split(b, 10u8),
        None => seq![Seq::<u8>::empty()],
    }
}

/// Hunks are applied by position in the old text.
pub open spec fn hunk_lt(a: &Hunk, b: &Hunk) -> bool {
    a.old_start < b.old_start || (a.old_start == b.old_start && a.old_count < b.old_count)
}

/// The hunks in the order of their position in the old text.
pub open spec fn by_position(hunks: Seq<&Hunk>) -> Seq<&Hunk> {
    sorted_by(hunks, |a: &Hunk, b: &Hunk| hunk_lt(a, b))
}

/// The number of old lines before the hunk: a hunk that removes nothing stands
/// after line `old_start`, any other one replaces from line `old_start` on.
pub open spec fn first_line(h: &Hunk) -> int {
    if h.old_count == 0 {
        h.old_start as int
    } else {
        h.old_start - 1
    }
}

/// The number of old lines up to the end of the last hunk.
pub open spec fn consumed(hs: Seq<&Hunk>) -> int {
    if hs.len() == 0 {
        0
    } else {
        first_line(hs.last()) + hs.last().old_count
    }
}

/// Whether ordered hunks are disjoint and lie inside a text of `n` lines.
pub open spec fn fits(n: int, hs: Seq<&Hunk>) -> bool {
    &&& forall|i: int|
        0 <= i < hs.len() ==> consumed(hs.take(i)) <= first_line(#[trigger] hs[i]) <= n
    &&& consumed(hs) <= n
}

/// The new text up to the end of the last hunk: the old lines between the hunks,
/// each hunk replaced by its added lines.
pub open spec fn rewritten(lines: Seq<Seq<u8>>, hs: Seq<&Hunk>) -> Seq<Seq<u8>>
    decreases hs.len(),
{
    if hs.len() == 0 {
        Seq::empty()
    } else {
        rewritten(lines, hs.drop_last()) + lines.subrange(
            consumed(hs.drop_last()),
            first_line(hs.last()),
        ) + views(hs.last().added@)
    }
}

/// What the hunks say of the newline at the end of the new text: the last hunk
/// that carries a no-newline mark on either side decides.
pub open spec fn ends_without_newline(hs: Seq<&Hunk>) -> Option<bool>
    decreases hs.len(),
{
    if hs.len() == 0 {
        None
    } else if hs.last().nonl_old || hs.last().nonl_new {
        Some(hs.last().nonl_new)
    } else {
        ends_without_newline(hs.drop_last())
    }
}

/// The lines with the end of the text as the hunks say: an empty last line is
/// dropped where the newline went, one is added where it came.
pub open spec fn with_ending(lines: Seq<Seq<u8>>, ending: Option<bool>) -> Seq<Seq<u8>> {
    match ending {
        Some(true) => if lines.len() > 0 && lines.last().len() == 0 {
            lines.drop_last()
        } else {
            lines
        },
        Some(false) => lines.push(Seq::<u8>::empty()),
        None => lines,
    }
}

/// The text that the hunks make of a base.
pub open spec fn applied(base: Option<Seq<u8>>, hunks: Seq<&Hunk>) -> Seq<u8> {
    let lines = base_lines(base);
    let hs = by_position(hunks);
    let all = rewritten(lines, hs) + lines.skip(consumed(hs));
    join(with_ending(all, ends_without_newline(hs)), 10u8)
}

pub open spec fn base_view(base: Option<&[u8]>) -> Option<Seq<u8>> {
    match base {
        Some(b) => Some(b@),
        None => None,
    }
}

/// Whether hunks can be applied to a base: they are disjoint and lie inside it.
pub fn hunks_fit(base: Option<&[u8]>, hunks: &[&Hunk]) -> (r: bool)
    ensures
        r == fits(base_lines(base_view(base)).len() as int, by_position(hunks@)),
{
    let lines: usize = match base {
        Some(b) => split_bytes(b, 10u8).len(),
        None => 1,
    };
    let ghost n = base_lines(base_view(base)).len() as int;
    assert(lines == n) by {
        if let Some(b) = base {
            let pieces = split(b@, 10u8);
            assert(pieces.len() == n);
        }
    }
    let ghost lt = |i: int, j: int| hunk_lt(hunks@[i], hunks@[j]);
    let less = |i: usize, j: usize| -> (r: bool)
        requires
            i < hunks@.len(),
            j < hunks@.len(),
        ensures
            r == hunk_lt(hunks@[i as int], hunks@[j as int]),
        {
            hunks[i].old_start < hunks[j].old_start || (hunks[i].old_start == hunks[j].old_start
                && hunks[i].old_count < hunks[j].old_count)
        };
    let order = stable_order(hunks.len(), less, Ghost(lt));
    let ghost hs = by_position(hunks@);
    proof {
        let f = |a: &Hunk, b: &Hunk| hunk_lt(a, b);
        assert(lt =~= (|i: int, j: int| f(hunks@[i], hunks@[j])));
        assert(forall|k: int| 0 <= k < hs.len() ==> hs[k] == hunks@[order@[k] as int]);
    }
    fit_in_order(lines, hunks, &order, Ghost(hs))
}

fn fit_in_order(lines: usize, hunks: &[&Hunk], order: &Vec<usize>, Ghost(hs): Ghost<Seq<&Hunk>>) -> (r:
    bool)
    requires
        hs.len() == hunks@.len(),
        order@.len() == hunks@.len(),
        forall|k: int| 0 <= k < hs.len() ==> hs[k] == hunks@[order@[k] as int],
        forall|k: int| 0 <= k < hs.len() ==> (#[trigger] order@[k]) < hunks@.len(),
    ensures
        r == fits(lines as int, hs),
{
    let mut end: i128 = 0;
    assert(consumed(hs.take(0)) == 0);
    for k in 0..order.len()
        invariant
            hs.len() == hunks@.len(),
            order@.len() == hunks@.len(),
            forall|k: int| 0 <= k < hs.len() ==> hs[k] == hunks@[order@[k] as int],
            forall|k: int| 0 <= k < hs.len() ==> (#[trigger] order@[k]) < hunks@.len(),
            end == consumed(hs.take(k as int)),
            forall|i: int|
                0 <= i < k ==> consumed(hs.take(i)) <= first_line(#[trigger] hs[i]) <= lines,
    {
        let h = hunks[order[k]];
        assert(hs[k as int] == h);
        let first: i128 = if h.old_count == 0 {
            h.old_start as i128
        } else {
            h.old_start as i128 - 1
        };
        assert(first == first_line(hs[k as int]));
        if first < end || first > lines as i128 {
            assert(!(consumed(hs.take(k as int)) <= first_line(hs[k as int]) <= lines));
            return false;
        }
        assert(hs.take(k + 1).last() == h);
        end = first + h.old_count as i128;
        assert(end == consumed(hs.take(k + 1)));
    }
    assert(hs.take(hs.len() as int) =~= hs);
    end <= lines as i128
}

/// Apply a subset of one file's hunks to its base content. Hunks are disjoint
/// under `-U0`.
#[verifier::rlimit(40)]
pub fn apply_hunks(base: Option<&[u8]>, hunks: &[&Hunk]) -> (r: Vec<u8>)
    requires
        fits(base_lines(base_view(base)).len() as int, by_position(hunks@)),
    ensures
        r@ == applied(base_view(base), hunks@),
{
    let lines: Vec<Vec<u8>> = match base {
        Some(b) => split_bytes(b, 10u8),
        None => {
            let mut one: Vec<Vec<u8>> = Vec::new();
            one.push(Vec::new());
            assert(views(one@) =~= seq![Seq::<u8>::empty()]);
            one
        },
    };
    let ghost old_lines = base_lines(base_view(base));
    assert(views(lines@) == old_lines);
    assert(lines@.len() == old_lines.len());

    let ghost lt = |i: int, j: int| hunk_lt(hunks@[i], hunks@[j]);
    let less = |i: usize, j: usize| -> (r: bool)
        requires
            i < hunks@.len(),
            j < hunks@.len(),
        ensures
            r == hunk_lt(hunks@[i as int], hunks@[j as int]),
        {
            hunks[i].old_start < hunks[j].old_start || (hunks[i].old_start == hunks[j].old_start
                && hunks[i].old_count < hunks[j].old_count)
        };
    let order = stable_order(hunks.len(), less, Ghost(lt));
    let ghost hs = by_position(hunks@);
    proof {
        let f = |a: &Hunk, b: &Hunk| hunk_lt(a, b);
        assert(lt =~= (|i: int, j: int| f(hunks@[i], hunks@[j])));
        assert(forall|k: int| 0 <= k < hs.len() ==> hs[k] == hunks@[order@[k] as int]);
    }

    let mut out: Vec<Vec<u8>> = Vec::new();
    let mut pos: usize = 0;
    let mut eof: Option<bool> = None;
    assert(views(out@) =~= rewritten(old_lines, hs.take(0)));
    for k in 0..order.len()
        invariant
            views(lines@) == old_lines,
            lines@.len() == old_lines.len(),
            fits(lines@.len() as int, hs),
            hs.len() == hunks@.len(),
            order@.len() == hunks@.len(),
            forall|k: int| 0 <= k < hs.len() ==> hs[k] == hunks@[order@[k] as int],
            forall|k: int| 0 <= k < hs.len() ==> (#[trigger] order@[k]) < hunks@.len(),
            views(out@) == rewritten(old_lines, hs.take(k as int)),
            pos == consumed(hs.take(k as int)),
            pos <= lines@.len(),
            eof == ends_without_newline(hs.take(k as int)),
    {
        let h = hunks[order[k]];
        proof {
            assert(hs[k as int] == h);
            assert(hs.take(k + 1).drop_last() =~= hs.take(k as int));
            assert(hs.take(k + 1).last() == h);
            assert(consumed(hs.take(k as int)) <= first_line(hs[k as int]) <= lines@.len());
            if k + 1 < hs.len() {
                assert(consumed(hs.take(k + 1)) <= first_line(hs[k + 1]) <= lines@.len());
            } else {
                assert(hs.take(k + 1) =~= hs);
            }
        }
        assert(first_line(h) + h.old_count <= lines.len());
        let start: usize = if h.old_count == 0 {
            h.old_start as usize
        } else {
            h.old_start as usize - 1
        };
        let ghost had = views(out@);
        extend_lines(&mut out, &lines, pos, start);
        extend_lines(&mut out, &h.added, 0, h.added.len());
        proof {
            assert(views(h.added@).subrange(0, h.added@.len() as int) =~= views(h.added@));
            assert(views(out@) =~= had + old_lines.subrange(pos as int, start as int) + views(
                h.added@,
            ));
        }
        pos = start + h.old_count as usize;
        if h.nonl_old || h.nonl_new {
            eof = Some(h.nonl_new);
        }
    }
    assert(hs.take(hs.len() as int) =~= hs);
    extend_lines(&mut out, &lines, pos, lines.len());
    let ghost all = rewritten(old_lines, hs) + old_lines.skip(consumed(hs));
    assert(views(out@) =~= all);
    match eof {
        Some(true) => {
            if out.len() > 0 && out[out.len() - 1].len() == 0 {
                let ghost had = out@;
                assert(all.last() == had.last()@);
                out.pop();
                assert(views(out@) =~= all.drop_last());
            } else {
                assert(out@.len() > 0 ==> all.last() == out@.last()@);
            }
        },
        Some(false) => {
            out.push(Vec::new());
            assert(views(out@) =~= all.push(Seq::<u8>::empty()));
        },
        None => {},
    }
    join_bytes(&out, 10u8)
}

/// A file that no hunk touches is handed back byte for byte.
pub proof fn law_no_hunks_no_change(base: Seq<u8>)
    ensures
        applied(Some(base), Seq::empty()) == base,
{
    let hs = by_position(Seq::empty());
    assert(hs =~= Seq::<&Hunk>::empty());
    let lines = split(base, 10u8);
    assert(rewritten(lines, hs) + lines.skip(0) =~= lines);
    law_join_undoes_split(base, 10u8);
}

/// Hunks at different places may be handed over in any order: the text that they
/// make is the same.
pub proof fn law_order_of_hunks_is_irrelevant(
    base: Option<Seq<u8>>,
    a: Seq<&Hunk>,
    b: Seq<&Hunk>,
)
    requires
        a.len() == b.len() <= usize::MAX,
        forall|i: int| 0 <= i < a.len() ==> b.contains(#[trigger] a[i]),
        forall|i: int| 0 <= i < b.len() ==> a.contains(#[trigger] b[i]),
        forall|i: int, j: int|
            0 <= i < a.len() && 0 <= j < a.len() && i != j ==> (#[trigger] a[i]).old_start != (
            #[trigger] a[j]).old_start || a[i].old_count != a[j].old_count,
        forall|i: int, j: int|
            0 <= i < b.len() && 0 <= j < b.len() && i != j ==> (#[trigger] b[i]).old_start != (
            #[trigger] b[j]).old_start || b[i].old_count != b[j].old_count,
    ensures
        applied(base, a) == applied(base, b),
{
    let lt = |x: &Hunk, y: &Hunk| hunk_lt(x, y);
    lemma_by_position(a);
    lemma_by_position(b);
    let p = by_position(a);
    let q = by_position(b);
    assert forall|i: int| 0 <= i < p.len() implies q.contains(#[trigger] p[i]) by {
        assert(a.contains(p[i]));
        let k = choose|k: int| 0 <= k < a.len() && a[k] == p[i];
        assert(b.contains(a[k]));
        let m = choose|m: int| 0 <= m < b.len() && b[m] == a[k];
        assert(q.contains(b[m]));
    }
    assert forall|i: int| 0 <= i < q.len() implies p.contains(#[trigger] q[i]) by {
        assert(b.contains(q[i]));
        let k = choose|k: int| 0 <= k < b.len() && b[k] == q[i];
        assert(a.contains(b[k]));
        let m = choose|m: int| 0 <= m < a.len() && a[m] == b[k];
        assert(p.contains(a[m]));
    }
    lemma_increasing_unique(p, q, lt);
}

/// Hunks at different places come out strictly ordered, none lost and none new.
proof fn lemma_by_position(a: Seq<&Hunk>)
    requires
        a.len() <= usize::MAX,
        forall|i: int, j: int|
            0 <= i < a.len() && 0 <= j < a.len() && i != j ==> (#[trigger] a[i]).old_start != (
            #[trigger] a[j]).old_start || a[i].old_count != a[j].old_count,
    ensures
        by_position(a).len() == a.len(),
        forall|i: int, j: int|
            0 <= i < j < a.len() ==> hunk_lt(by_position(a)[i], by_position(a)[j]),
        forall|i: int| 0 <= i < a.len() ==> a.contains(#[trigger] by_position(a)[i]),
        forall|i: int| 0 <= i < a.len() ==> by_position(a).contains(#[trigger] a[i]),
{
    let f = |x: &Hunk, y: &Hunk| hunk_lt(x, y);
    let lt = |i: int, j: int| f(a[i], a[j]);
    let n = a.len() as int;
    lemma_stable_exists(a.len(), lt);
    let perm = stable_perm(n, lt);
    let p = by_position(a);
    assert(forall|i: int| 0 <= i < n ==> p[i] == a[perm[i] as int]);
    assert forall|i: int, j: int| 0 <= i < j < n implies hunk_lt(p[i], p[j]) by {
        assert(stable_before(lt, perm[i] as int, perm[j] as int));
        assert(lt(perm[i] as int, perm[j] as int) == hunk_lt(p[i], p[j]));
        assert(lt(perm[j] as int, perm[i] as int) == hunk_lt(p[j], p[i]));
    }
    assert forall|i: int| 0 <= i < n implies p.contains(#[trigger] a[i]) by {
        assert(perm.contains(i as usize));
        let k = choose|k: int| 0 <= k < perm.len() && perm[k] == i as usize;
        assert(p[k] == a[i]);
    }
}

/// Append copies of some lines.
fn extend_lines(out: &mut Vec<Vec<u8>>, lines: &Vec<Vec<u8>>, from: usize, to: usize)
    requires
        from <= to <= lines@.len(),
    ensures
        views(final(out)@) == views(old(out)@) + views(lines@).subrange(from as int, to as int),
{
    let ghost had = views(out@);
    for i in from..to
        invariant
            from <= to <= lines@.len(),
            views(out@) == had + views(lines@).subrange(from as int, i as int),
    {
        let ghost before = views(out@);
        out.push(copy_bytes(&lines[i]));
        assert(views(out@) =~= before.push(lines@[i as int]@));
        assert(views(out@) =~= had + views(lines@).subrange(from as int, i + 1));
    }
    assert(from == to ==> views(out@) =~= had + views(lines@).subrange(from as int, to as int));
}

/// One hunk stands where it says: no other is before it or behind it.
proof fn lemma_alone(h: &Hunk)
    ensures
        by_position(seq![h]) == seq![h],
        consumed(seq![h]) == first_line(h) + h.old_count,
        seq![h].drop_last() == Seq::<&Hunk>::empty(),
{
    let one = seq![h];
    lemma_by_position(one);
    assert(by_position(one) =~= one) by {
        assert(one.contains(by_position(one)[0]));
    }
    assert(one.drop_last() =~= Seq::<&Hunk>::empty());
}

/// A single hunk that says nothing of the end of the text puts its added lines in the
/// place of the lines it removes: those from line `old_start` on, or, where it removes
/// none, the place behind line `old_start`. Every other line stays.
pub proof fn law_a_hunk_replaces_its_lines(base: &[u8], hunks: &[&Hunk], h: &Hunk, r: Vec<u8>)
    requires
        call_ensures(apply_hunks, (Some(base), hunks), r),
        hunks@ == seq![h],
        !h.nonl_old,
        !h.nonl_new,
        split(base@, 10u8).len() >= h.old_start + h.old_count,
        h.old_count > 0 ==> h.old_start > 0,
    ensures
        h.old_count > 0 ==> r@ == join(
            split(base@, 10u8).take(h.old_start - 1) + views(h.added@) + split(base@, 10u8).skip(
                h.old_start - 1 + h.old_count,
            ),
            10u8,
        ),
        h.old_count == 0 ==> r@ == join(
            split(base@, 10u8).take(h.old_start as int) + views(h.added@) + split(base@, 10u8).skip(
                h.old_start as int,
            ),
            10u8,
        ),
{
    let lines = split(base@, 10u8);
    lemma_alone(h);
    assert(base_view(Some(base)) == Some(base@));
    let one = seq![h];
    reveal_with_fuel(rewritten, 2);
    reveal_with_fuel(ends_without_newline, 2);
    assert(one.last() == h);
    let first = first_line(h);
    assert(rewritten(lines, one) =~= lines.take(first) + views(h.added@));
    assert(rewritten(lines, one) + lines.skip(consumed(one)) =~= lines.take(first) + views(h.added@)
        + lines.skip(first + h.old_count));
}

/// The lines that a single hunk leaves, whatever it says of the end of the text.
pub open spec fn patched(lines: Seq<Seq<u8>>, h: &Hunk) -> Seq<Seq<u8>> {
    let before = if h.old_count == 0 {
        h.old_start as int
    } else {
        h.old_start - 1
    };
    lines.take(before) + views(h.added@) + lines.skip(before + h.old_count)
}

/// A hunk whose new side has no newline at the end takes the empty line off that stands
/// for it. One whose old side alone had none puts it on.
pub proof fn law_the_newline_at_the_end_follows_the_marks(
    base: &[u8],
    hunks: &[&Hunk],
    h: &Hunk,
    r: Vec<u8>,
)
    requires
        call_ensures(apply_hunks, (Some(base), hunks), r),
        hunks@ == seq![h],
        split(base@, 10u8).len() >= h.old_start + h.old_count,
        h.old_count > 0 ==> h.old_start > 0,
        h.nonl_old || h.nonl_new,
    ensures
        !h.nonl_new ==> r@ == join(
            patched(split(base@, 10u8), h).push(Seq::<u8>::empty()),
            10u8,
        ),
        h.nonl_new && patched(split(base@, 10u8), h).len() > 0 && patched(
            split(base@, 10u8),
            h,
        ).last().len() == 0 ==> r@ == join(patched(split(base@, 10u8), h).drop_last(), 10u8),
        h.nonl_new && patched(split(base@, 10u8), h).len() > 0 && patched(
            split(base@, 10u8),
            h,
        ).last().len() > 0 ==> r@ == join(patched(split(base@, 10u8), h), 10u8),
{
    let lines = split(base@, 10u8);
    lemma_alone(h);
    assert(base_view(Some(base)) == Some(base@));
    let one = seq![h];
    reveal_with_fuel(rewritten, 2);
    reveal_with_fuel(ends_without_newline, 2);
    assert(one.last() == h);
    let first = first_line(h);
    assert(rewritten(lines, one) =~= lines.take(first) + views(h.added@));
    assert(rewritten(lines, one) + lines.skip(consumed(one)) =~= patched(lines, h));
}

/// A file that was absent is what its one hunk adds.
pub proof fn law_an_added_file_is_its_added_lines(hunks: &[&Hunk], h: &Hunk, r: Vec<u8>)
    requires
        call_ensures(apply_hunks, (None::<&[u8]>, hunks), r),
        hunks@ == seq![h],
        h.old_start == 0,
        h.old_count == 0,
        !h.nonl_old,
    ensures
        !h.nonl_new ==> r@ == join(views(h.added@).push(Seq::<u8>::empty()), 10u8),
        h.nonl_new ==> r@ == join(views(h.added@), 10u8),
{
    let none = Seq::<u8>::empty();
    let lines = seq![none];
    lemma_alone(h);
    assert(base_lines(base_view(None)) == lines);
    let one = seq![h];
    reveal_with_fuel(rewritten, 2);
    reveal_with_fuel(ends_without_newline, 2);
    assert(one.last() == h);
    assert(rewritten(lines, one) =~= views(h.added@));
    let all = rewritten(lines, one) + lines.skip(0);
    assert(all =~= views(h.added@).push(none));
    assert(all.drop_last() =~= views(h.added@));
}

/// Whether two texts are alike but for a hunk: behind the same lines one goes on with the
/// old lines from the hunk on, the other with its added lines and the old lines behind it.
pub open spec fn differ_in(
    front: Seq<Seq<u8>>,
    lines: Seq<Seq<u8>>,
    h: &Hunk,
    without: Seq<u8>,
    with: Seq<u8>,
) -> bool {
    let at = if h.old_count == 0 {
        h.old_start as int
    } else {
        h.old_start - 1
    };
    &&& without == join(front + lines.skip(at), 10u8)
    &&& with == join(front + views(h.added@) + lines.skip(at + h.old_count), 10u8)
}

/// The hunks of a text do not disturb each other: what stands in front of the last one
/// is what the others make of it, and behind it stand its added lines and the rest.
pub proof fn law_the_last_hunk_leaves_the_others(
    base: &[u8],
    hunks: &[&Hunk],
    fewer: &[&Hunk],
    r: Vec<u8>,
    s: Vec<u8>,
)
    requires
        call_ensures(apply_hunks, (Some(base), hunks), r),
        call_ensures(apply_hunks, (Some(base), fewer), s),
        0 < hunks@.len() <= usize::MAX,
        fewer@ == hunks@.drop_last(),
        forall|i: int, j: int|
            0 <= i < j < hunks@.len() ==> (#[trigger] hunks@[i]).old_start + hunks@[i].old_count
                <= (#[trigger] hunks@[j]).old_start && hunks@[i].old_start < hunks@[j].old_start,
        forall|i: int|
            0 <= i < hunks@.len() ==> (#[trigger] hunks@[i]).old_start > 0 && !hunks@[i].nonl_old
                && !hunks@[i].nonl_new,
        hunks@.last().old_start + hunks@.last().old_count <= split(base@, 10u8).len(),
    ensures
        exists|front: Seq<Seq<u8>>| #[trigger]
            differ_in(front, split(base@, 10u8), hunks@.last(), s@, r@),
{
    let lines = split(base@, 10u8);
    let hs = hunks@;
    let h = hs.last();
    assert(base_view(Some(base)) == Some(base@));
    lemma_by_position_increasing(hs);
    lemma_by_position_increasing(fewer@);
    lemma_unmarked(hs);
    lemma_unmarked(fewer@);
    let at = first_line(h);
    let end = consumed(fewer@);
    let done = rewritten(lines, fewer@);
    let front = done + lines.subrange(end, at);
    assert(0 <= end <= at) by {
        if fewer@.len() > 0 {
            let k = fewer@.len() - 1;
            assert(fewer@.last() == hs[k]);
            assert(hs[k].old_start + hs[k].old_count <= hs[hs.len() - 1].old_start);
        }
    }
    assert(done + lines.skip(end) =~= front + lines.skip(at));
    assert(rewritten(lines, hs) + lines.skip(consumed(hs)) =~= front + views(h.added@) + lines.skip(
        at + h.old_count,
    ));
    assert(differ_in(front, lines, h, s@, r@));
}

/// Hunks that come one behind the other are in order already.
proof fn lemma_by_position_increasing(hs: Seq<&Hunk>)
    requires
        hs.len() <= usize::MAX,
        forall|i: int, j: int|
            0 <= i < j < hs.len() ==> (#[trigger] hs[i]).old_start < (#[trigger] hs[j]).old_start,
    ensures
        by_position(hs) == hs,
{
    assert forall|i: int, j: int| 0 <= i < hs.len() && 0 <= j < hs.len() && i != j implies (
    #[trigger] hs[i]).old_start != (#[trigger] hs[j]).old_start || hs[i].old_count
        != hs[j].old_count by {
        if i < j {
            assert(hs[i].old_start < hs[j].old_start);
        } else {
            assert(hs[j].old_start < hs[i].old_start);
        }
    }
    lemma_by_position(hs);
    let p = by_position(hs);
    assert forall|i: int| 0 <= i < p.len() implies hs.contains(#[trigger] p[i]) by {}
    assert forall|i: int| 0 <= i < hs.len() implies p.contains(#[trigger] hs[i]) by {}
    lemma_increasing_unique(p, hs, |x: &Hunk, y: &Hunk| hunk_lt(x, y));
}

/// Hunks without marks say nothing of the end of the text.
proof fn lemma_unmarked(hs: Seq<&Hunk>)
    requires
        forall|i: int|
            0 <= i < hs.len() ==> !(#[trigger] hs[i]).nonl_old && !hs[i].nonl_new,
    ensures
        ends_without_newline(hs) is None,
    decreases hs.len(),
{
    if hs.len() > 0 {
        assert(!hs[hs.len() - 1].nonl_old && !hs[hs.len() - 1].nonl_new);
        lemma_unmarked(hs.drop_last());
    }
}

} // verus!
