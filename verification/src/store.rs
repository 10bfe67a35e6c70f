//! What is kept on disk, apart from reading and writing it: what the regenerable
//! cache holds, how entries are named, and which directories are reviews.
use vstd::prelude::*;

use crate::forge::ReviewIdentity;
use crate::review_identity::FiledReview;
use crate::seqs::{
    chars_lt, is_order, is_stable_order, lemma_chars_order, sorted_by, stable_before, stable_order,
    str_less, texts,
};
use crate::text::{lines, lines_of, push_str, str_eq, trim, trimmed_text};

verus! {

/// What the regenerable cache currently holds, or what clearing it removed.
#[derive(Debug, Clone, Copy, PartialEq, Eq, Structural)]
pub struct CacheUsage {
    pub groupings: usize,
    pub documents: usize,
    pub bytes: u64,
}

impl CacheUsage {
    /// What two directories hold together: how many files, and their bytes.
    pub fn of(groupings: (usize, u64), documents: (usize, u64)) -> (r: Self)
        requires
            groupings.1 + documents.1 <= u64::MAX,
        ensures
            r.groupings == groupings.0,
            r.documents == documents.0,
            r.bytes == groupings.1 + documents.1,
    {
        CacheUsage {
            groupings: groupings.0,
            documents: documents.0,
            bytes: groupings.1 + documents.1,
        }
    }

    pub fn is_empty(&self) -> (r: bool)
        ensures
            r == (self.groupings == 0 && self.documents == 0),
    {
        self.groupings == 0 && self.documents == 0
    }
}

/// An entry of a directory.
#[derive(Debug, Clone, Copy, PartialEq, Eq, Structural)]
pub struct DirEntry {
    pub is_file: bool,
    pub bytes: u64,
}

/// How many of the first `n` entries are files.
pub open spec fn files_in(entries: Seq<DirEntry>, n: int) -> nat
    decreases n,
{
    if n <= 0 {
        0
    } else {
        files_in(entries, n - 1) + (if entries[n - 1].is_file {
            1nat
        } else {
            0
        })
    }
}

/// The bytes of the files among the first `n` entries.
pub open spec fn bytes_in(entries: Seq<DirEntry>, n: int) -> nat
    decreases n,
{
    if n <= 0 {
        0
    } else {
        bytes_in(entries, n - 1) + (if entries[n - 1].is_file {
            entries[n - 1].bytes as nat
        } else {
            0
        })
    }
}

/// The files of a directory, and their bytes. Nothing is told where the bytes do not
/// fit a number.
pub fn count(entries: &Vec<DirEntry>) -> (r: Option<(usize, u64)>)
    ensures
        match r {
            Some((n, bytes)) => n == files_in(entries@, entries@.len() as int) && bytes == bytes_in(
                entries@,
                entries@.len() as int,
            ),
            None => bytes_in(entries@, entries@.len() as int) > u64::MAX,
        },
{
    let mut n: usize = 0;
    let mut bytes: u64 = 0;
    for i in 0..entries.len()
        invariant
            n == files_in(entries@, i as int),
            n <= i,
            bytes == bytes_in(entries@, i as int),
    {
        if entries[i].is_file {
            n = n + 1;
            match bytes.checked_add(entries[i].bytes) {
                Some(b) => {
                    bytes = b;
                },
                None => {
                    proof {
                        lemma_bytes_grow(entries@, i + 1, entries@.len() as int);
                    }
                    return None;
                },
            }
        }
    }
    Some((n, bytes))
}

proof fn lemma_bytes_grow(entries: Seq<DirEntry>, i: int, j: int)
    requires
        i <= j,
    ensures
        bytes_in(entries, i) <= bytes_in(entries, j),
    decreases j - i,
{
    if i < j {
        lemma_bytes_grow(entries, i, j - 1);
    }
}

/// The file of an entry: its key, and the ending of its format.
pub fn entry_name(key: &str) -> (r: String)
    ensures
        r@ == key@ + ".json"@,
{
    let mut out = key.to_owned();
    push_str(&mut out, ".json");
    out
}

/// The review that a redirect leads to; an empty redirect leads nowhere.
pub fn alias_target(text: &str) -> (r: Option<String>)
    ensures
        match r {
            Some(id) => id@ == trim(text@) && id@.len() > 0,
            None => trim(text@).len() == 0,
        },
{
    let id = trimmed_text(text);
    proof {
        reveal_strlit("");
        assert(id@.len() == 0 ==> id@ =~= ""@);
    }
    if str_eq(&id, "") {
        None
    } else {
        Some(id)
    }
}

/// The lines of a file of records that hold one, with their numbers, among the first
/// `n`.
pub open spec fn records_until(all: Seq<Seq<char>>, n: int) -> Seq<(int, Seq<char>)>
    decreases n,
{
    if n <= 0 {
        Seq::empty()
    } else if trim(all[n - 1]).len() == 0 {
        records_until(all, n - 1)
    } else {
        records_until(all, n - 1).push((n, all[n - 1]))
    }
}

/// Numbered texts by what they hold.
pub open spec fn numbered(v: Seq<(usize, String)>) -> Seq<(int, Seq<char>)> {
    v.map_values(|x: (usize, String)| (x.0 as int, x.1@))
}

/// The records of a file with one a line: each line that is not blank, with its
/// number, counted from 1.
pub fn records(text: &str) -> (r: Vec<(usize, String)>)
    ensures
        numbered(r@) == records_until(lines(text@), lines(text@).len() as int),
{
    let all = lines_of(text);
    let mut out: Vec<(usize, String)> = Vec::new();
    assert(numbered(out@) =~= records_until(lines(text@), 0));
    for i in 0..all.len()
        invariant
            texts(all@) == lines(text@),
            numbered(out@) == records_until(lines(text@), i as int),
    {
        let t = trimmed_text(&all[i]);
        assert(texts(all@)[i as int] == all@[i as int]@);
        proof {
            reveal_strlit("");
            assert(t@.len() == 0 ==> t@ =~= ""@);
        }
        if !str_eq(&t, "") {
            let ghost had = numbered(out@);
            assert(i < all.len());
            out.push((i + 1, all[i].clone()));
            assert(numbered(out@) =~= had.push((i + 1, lines(text@)[i as int])));
        }
    }
    assert(texts(all@).len() == all@.len());
    out
}

/// A directory among the reviews.
#[derive(Debug)]
pub struct ReviewDir {
    pub id: String,
    /// Whether it only leads to another review.
    pub redirects: bool,
    pub opened_as: Option<ReviewIdentity>,
}

/// What is filed in the first `n` directories: one that redirects is a pointer, not
/// a review, and listing it would let another spelling adopt the pointer.
pub open spec fn filed_until(dirs: Seq<ReviewDir>, n: int) -> Seq<FiledReview>
    decreases n,
{
    if n <= 0 {
        Seq::empty()
    } else if dirs[n - 1].redirects {
        filed_until(dirs, n - 1)
    } else {
        filed_until(dirs, n - 1).push(
            FiledReview { id: dirs[n - 1].id, opened_as: dirs[n - 1].opened_as },
        )
    }
}

/// The reviews on file by their ids, so that two machines scan them alike.
pub open spec fn filed_order(filed: Seq<FiledReview>) -> Seq<FiledReview> {
    sorted_by(filed, |a: FiledReview, b: FiledReview| chars_lt(a.id@, b.id@))
}

proof fn lemma_by_id(fs: Seq<FiledReview>)
    ensures
        ({
            let f = |a: FiledReview, b: FiledReview| chars_lt(a.id@, b.id@);
            is_order(fs.len() as int, |i: int, j: int| f(fs[i], fs[j]))
        }),
{
    let f = |a: FiledReview, b: FiledReview| chars_lt(a.id@, b.id@);
    let lt = |i: int, j: int| f(fs[i], fs[j]);
    let id = |i: int| fs[i].id@;
    assert forall|i: int| !#[trigger] lt(i, i) by {
        lemma_chars_order(id(i), id(i), id(i));
    }
    assert forall|i: int, j: int, k: int| #[trigger] lt(i, j) && #[trigger] lt(j, k) implies lt(
        i,
        k,
    ) by {
        lemma_chars_order(id(i), id(j), id(k));
    }
    assert forall|i: int, j: int, k: int| #[trigger] lt(i, k) implies #[trigger] lt(i, j) || lt(
        j,
        k,
    ) by {
        lemma_chars_order(id(i), id(j), id(k));
        lemma_chars_order(id(i), id(k), id(j));
        lemma_chars_order(id(j), id(i), id(k));
    }
}

/// Reviews in the order of their ids.
fn in_order(filed: Vec<FiledReview>) -> (r: Vec<FiledReview>)
    ensures
        r@ == filed_order(filed@),
{
    let ghost fs = filed@;
    let ghost f = |a: FiledReview, b: FiledReview| chars_lt(a.id@, b.id@);
    let ghost lt = |i: int, j: int| f(fs[i], fs[j]);
    let less = |i: usize, j: usize| -> (r: bool)
        requires
            i < filed@.len(),
            j < filed@.len(),
        ensures
            r == chars_lt(filed@[i as int].id@, filed@[j as int].id@),
        { str_less(&filed[i].id, &filed[j].id) };
    proof {
        lemma_by_id(fs);
    }
    let order = stable_order(filed.len(), less, Ghost(lt));
    let mut places: Vec<Option<FiledReview>> = Vec::new();
    for f in it: filed
        invariant
            it.seq() == fs,
            places@.len() == it.index(),
            forall|i: int| 0 <= i < places@.len() ==> #[trigger] places@[i] == Some(fs[i]),
    {
        places.push(Some(f));
    }
    let mut out: Vec<FiledReview> = Vec::new();
    for k in 0..order.len()
        invariant
            is_order(fs.len() as int, lt),
            is_stable_order(fs.len() as int, lt, order@),
            places@.len() == fs.len(),
            forall|i: int|
                0 <= i < fs.len() && (forall|a: int| 0 <= a < k ==> #[trigger] order@[a] != i)
                    ==> #[trigger] places@[i] == Some(fs[i]),
            out@.len() == k,
            forall|a: int| 0 <= a < k ==> #[trigger] out@[a] == fs[order@[a] as int],
    {
        let at = order[k];
        let ghost had = places@;
        proof {
            assert forall|a: int| 0 <= a < k implies #[trigger] order@[a] != at by {
                assert(stable_before(lt, order@[a] as int, order@[k as int] as int));
            }
            assert(places@[at as int] == Some(fs[at as int]));
        }
        let taken = places[at].take();
        if let Some(f) = taken {
            out.push(f);
        }
        proof {
            assert forall|i: int|
                0 <= i < fs.len() && (forall|a: int| 0 <= a < k + 1 ==> #[trigger] order@[a] != i)
                implies #[trigger] places@[i] == Some(fs[i]) by {
                assert(order@[k as int] != i);
                assert(had[i] == Some(fs[i]));
            }
        }
    }
    assert(out@ =~= filed_order(fs));
    out
}

/// The reviews on file, in the order of their ids.
pub fn filed_reviews(dirs: Vec<ReviewDir>) -> (r: Vec<FiledReview>)
    ensures
        r@ == filed_order(filed_until(dirs@, dirs@.len() as int)),
{
    let ghost all = dirs@;
    let mut filed: Vec<FiledReview> = Vec::new();
    for d in it: dirs
        invariant
            it.seq() == all,
            filed@ == filed_until(all, it.index()),
    {
        if !d.redirects {
            filed.push(FiledReview { id: d.id, opened_as: d.opened_as });
        }
    }
    in_order(filed)
}

/// What is counted are the files, with all their bytes; no directory counts.
pub proof fn law_only_files_are_counted(entries: &Vec<DirEntry>, r: Option<(usize, u64)>)
    requires
        call_ensures(count, (entries,), r),
    ensures
        r matches Some((n, bytes)) ==> n == entries@.filter(|e: DirEntry| e.is_file).len() && bytes
            == entries@.fold_left(
            0int,
            |sum: int, e: DirEntry|
                if e.is_file {
                    sum + e.bytes
                } else {
                    sum
                },
        ),
        r is None <==> entries@.fold_left(
            0int,
            |sum: int, e: DirEntry|
                if e.is_file {
                    sum + e.bytes
                } else {
                    sum
                },
        ) > u64::MAX,
{
    lemma_counted(entries@, entries@.len() as int);
    assert(entries@.take(entries@.len() as int) =~= entries@);
}

proof fn lemma_counted(entries: Seq<DirEntry>, n: int)
    requires
        0 <= n <= entries.len(),
    ensures
        files_in(entries, n) == entries.take(n).filter(|e: DirEntry| e.is_file).len(),
        bytes_in(entries, n) == entries.take(n).fold_left(
            0int,
            |sum: int, e: DirEntry|
                if e.is_file {
                    sum + e.bytes
                } else {
                    sum
                },
        ),
    decreases n,
{
    reveal(Seq::filter);
    let taken = entries.take(n);
    if n > 0 {
        lemma_counted(entries, n - 1);
        assert(taken.drop_last() =~= entries.take(n - 1));
        assert(taken.last() == entries[n - 1]);
    }
}

/// A record is a line that is not blank, with its number, counted from 1.
pub proof fn law_every_line_that_is_not_blank_is_a_record(
    text: &str,
    r: Vec<(usize, String)>,
    n: int,
)
    requires
        call_ensures(records, (text,), r),
        1 <= n <= lines(text@).len(),
    ensures
        (exists|k: int|
            0 <= k < r@.len() && (#[trigger] r@[k]).0 == n && r@[k].1@ == lines(text@)[n - 1])
            <==> trim(lines(text@)[n - 1]).len() > 0,
{
    let all = lines(text@);
    lemma_records(all, all.len() as int, n);
    let v = numbered(r@);
    assert(v.len() == r@.len());
    if v.contains((n, all[n - 1])) {
        let k = choose|k: int| 0 <= k < v.len() && v[k] == (n, all[n - 1]);
        assert(v[k] == (r@[k].0 as int, r@[k].1@));
    }
    if exists|k: int| 0 <= k < r@.len() && (#[trigger] r@[k]).0 == n && r@[k].1@ == all[n - 1] {
        let k = choose|k: int|
            0 <= k < r@.len() && (#[trigger] r@[k]).0 == n && r@[k].1@ == all[n - 1];
        assert(v[k] == (n, all[n - 1]));
    }
}

proof fn lemma_records(all: Seq<Seq<char>>, k: int, n: int)
    requires
        0 <= k <= all.len(),
        1 <= n <= all.len(),
    ensures
        records_until(all, k).contains((n, all[n - 1])) <==> n <= k && trim(all[n - 1]).len() > 0,
    decreases k,
{
    if k > 0 {
        lemma_records(all, k - 1, n);
        let before = records_until(all, k - 1);
        crate::seqs::lemma_push_contains(before, (k, all[k - 1]), (n, all[n - 1]));
    }
}

/// Every directory that does not redirect is a review on file, and no other is. They come
/// in the order of their ids.
pub proof fn law_what_does_not_redirect_is_on_file(
    dirs: Vec<ReviewDir>,
    r: Vec<FiledReview>,
    d: int,
)
    requires
        call_ensures(filed_reviews, (dirs,), r),
        0 <= d < dirs@.len(),
    ensures
        !dirs@[d].redirects ==> exists|k: int|
            0 <= k < r@.len() && (#[trigger] r@[k]).id == dirs@[d].id && r@[k].opened_as
                == dirs@[d].opened_as,
        forall|k: int|
            0 <= k < r@.len() ==> exists|e: int|
                0 <= e < dirs@.len() && !(#[trigger] dirs@[e]).redirects && (
                #[trigger] r@[k]).id == dirs@[e].id && r@[k].opened_as == dirs@[e].opened_as,
        forall|a: int, b: int|
            0 <= a < b < r@.len() ==> !chars_lt((#[trigger] r@[b]).id@, (#[trigger] r@[a]).id@),
{
    let n = dirs@.len() as int;
    let fs = filed_until(dirs@, n);
    let lt = |a: FiledReview, b: FiledReview| chars_lt(a.id@, b.id@);
    let less = |i: int, j: int| lt(fs[i], fs[j]);
    lemma_filed(dirs@, n);
    lemma_by_id(fs);
    assert(dirs.len() == dirs@.len());
    crate::seqs::lemma_stable_exists(fs.len(), less);
    let perm = crate::seqs::stable_perm(fs.len() as int, less);
    assert(is_stable_order(fs.len() as int, less, perm));
    assert(forall|k: int| 0 <= k < r@.len() ==> #[trigger] r@[k] == fs[perm[k] as int]);
    if !dirs@[d].redirects {
        let f = FiledReview { id: dirs@[d].id, opened_as: dirs@[d].opened_as };
        assert(fs.contains(f));
        let i = choose|i: int| 0 <= i < fs.len() && fs[i] == f;
        assert(perm.contains(i as usize));
        let k = choose|k: int| 0 <= k < perm.len() && perm[k] == i as usize;
        assert(r@[k] == f);
    }
    assert forall|k: int| 0 <= k < r@.len() implies exists|e: int|
        0 <= e < dirs@.len() && !(#[trigger] dirs@[e]).redirects && (#[trigger] r@[k]).id
            == dirs@[e].id && r@[k].opened_as == dirs@[e].opened_as by {
        let i = perm[k] as int;
        assert(r@[k] == fs[i]);
        let e = choose|e: int|
            0 <= e < n && !(#[trigger] dirs@[e]).redirects && fs[i].id == dirs@[e].id
                && fs[i].opened_as == dirs@[e].opened_as;
        assert(!dirs@[e].redirects);
    }
    assert forall|a: int, b: int| 0 <= a < b < r@.len() implies !chars_lt(
        (#[trigger] r@[b]).id@,
        (#[trigger] r@[a]).id@,
    ) by {
        let (i, j) = (perm[a] as int, perm[b] as int);
        assert(stable_before(less, i, j));
        assert(less(j, i) == chars_lt(r@[b].id@, r@[a].id@));
        assert(less(i, j) == chars_lt(r@[a].id@, r@[b].id@));
        lemma_chars_order(r@[a].id@, r@[b].id@, r@[a].id@);
    }
}

proof fn lemma_filed(dirs: Seq<ReviewDir>, n: int)
    requires
        0 <= n <= dirs.len(),
    ensures
        filed_until(dirs, n).len() <= n,
        forall|d: int|
            0 <= d < n && !(#[trigger] dirs[d]).redirects ==> filed_until(dirs, n).contains(
                (FiledReview { id: dirs[d].id, opened_as: dirs[d].opened_as }),
            ),
        forall|i: int|
            0 <= i < filed_until(dirs, n).len() ==> exists|e: int|
                0 <= e < n && !(#[trigger] dirs[e]).redirects && (#[trigger] filed_until(
                    dirs,
                    n,
                )[i]).id == dirs[e].id && filed_until(dirs, n)[i].opened_as == dirs[e].opened_as,
    decreases n,
{
    if n > 0 {
        lemma_filed(dirs, n - 1);
        let before = filed_until(dirs, n - 1);
        let all = filed_until(dirs, n);
        assert forall|d: int| 0 <= d < n && !(#[trigger] dirs[d]).redirects implies all.contains(
            (FiledReview { id: dirs[d].id, opened_as: dirs[d].opened_as }),
        ) by {
            let f = FiledReview { id: dirs[d].id, opened_as: dirs[d].opened_as };
            if d < n - 1 {
                let i = choose|i: int| 0 <= i < before.len() && before[i] == f;
                assert(all[i] == f);
            } else {
                assert(all[before.len() as int] == f);
            }
        }
        assert forall|i: int| 0 <= i < all.len() implies exists|e: int|
            0 <= e < n && !(#[trigger] dirs[e]).redirects && (#[trigger] all[i]).id == dirs[e].id
                && all[i].opened_as == dirs[e].opened_as by {
            if i < before.len() {
                assert(all[i] == before[i]);
                let e = choose|e: int|
                    0 <= e < n - 1 && !(#[trigger] dirs[e]).redirects && before[i].id == dirs[e].id
                        && before[i].opened_as == dirs[e].opened_as;
                assert(!dirs[e].redirects);
            } else {
                assert(!dirs[n - 1].redirects);
            }
        }
    }
}

} // verus!
