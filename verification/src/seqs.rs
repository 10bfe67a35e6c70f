//! Splitting, joining and stable sorting of sequences.
use vstd::prelude::*;

verus! {

/// The contents of a vector of byte strings.
pub open spec fn views(v: Seq<Vec<u8>>) -> Seq<Seq<u8>> {
    v.map_values(|l: Vec<u8>| l@)
}

/// The contents of a vector of strings.
pub open spec fn texts(v: Seq<String>) -> Seq<Seq<char>> {
    v.map_values(|s: String| s@)
}

/// The pieces of `s` between separators: one more piece than separators.
pub open spec fn split<T>(s: Seq<T>, sep: T) -> Seq<Seq<T>>
    decreases s.len(),
{
    if s.len() == 0 {
        seq![Seq::<T>::empty()]
    } else {
        let before = split(s.drop_last(), sep);
        if s.last() == sep {
            before.push(Seq::<T>::empty())
        } else {
            before.drop_last().push(before.last().push(s.last()))
        }
    }
}

/// The parts with one separator between each two.
pub open spec fn join<T>(parts: Seq<Seq<T>>, sep: T) -> Seq<T>
    decreases parts.len(),
{
    if parts.len() == 0 {
        Seq::empty()
    } else if parts.len() == 1 {
        parts[0]
    } else {
        join(parts.drop_last(), sep).push(sep) + parts.last()
    }
}

/// Splitting yields at least one piece, no piece holds a separator, and joining
/// the pieces gives the whole back.
pub proof fn law_join_undoes_split<T>(s: Seq<T>, sep: T)
    ensures
        split(s, sep).len() >= 1,
        forall|i: int| 0 <= i < split(s, sep).len() ==> !(#[trigger] split(s, sep)[i]).contains(sep),
        join(split(s, sep), sep) == s,
    decreases s.len(),
{
    if s.len() > 0 {
        law_join_undoes_split(s.drop_last(), sep);
        let before = split(s.drop_last(), sep);
        let after = split(s, sep);
        if s.last() == sep {
            assert(after.drop_last() =~= before);
            assert(join(after, sep) =~= s.drop_last().push(sep));
            assert(s =~= s.drop_last().push(s.last()));
        } else {
            assert(after.drop_last() =~= before.drop_last());
            assert(join(after, sep) =~= join(before, sep).push(s.last()));
            assert(s =~= s.drop_last().push(s.last()));
            assert forall|i: int| 0 <= i < after.len() implies !(#[trigger] after[i]).contains(
                sep,
            ) by {
                if i < before.len() - 1 {
                    assert(after[i] == before[i]);
                } else {
                    let last = before[before.len() - 1];
                    assert(after[i] == last.push(s.last()));
                    if after[i].contains(sep) {
                        let k = choose|k: int| 0 <= k < after[i].len() && after[i][k] == sep;
                        assert(last[k] == sep);
                        assert(last.contains(sep));
                    }
                }
            }
        }
    }
}

proof fn lemma_split_plain<T>(p: Seq<T>, sep: T)
    requires
        !p.contains(sep),
    ensures
        split(p, sep) == seq![p],
    decreases p.len(),
{
    if p.len() > 0 {
        assert(p[p.len() - 1] == p.last());
        assert(!p.drop_last().contains(sep)) by {
            if p.drop_last().contains(sep) {
                let k = choose|k: int| 0 <= k < p.len() - 1 && p.drop_last()[k] == sep;
                assert(p[k] == sep);
            }
        }
        lemma_split_plain(p.drop_last(), sep);
        assert(p.drop_last().push(p.last()) =~= p);
    } else {
        assert(p =~= Seq::<T>::empty());
    }
    assert(split(p, sep) =~= seq![p]);
}

proof fn lemma_split_tail<T>(s: Seq<T>, p: Seq<T>, sep: T)
    requires
        !p.contains(sep),
    ensures
        split(s.push(sep) + p, sep) == split(s, sep).push(p),
    decreases p.len(),
{
    let all = s.push(sep) + p;
    if p.len() == 0 {
        assert(all =~= s.push(sep));
        assert(all.drop_last() =~= s);
        assert(p =~= Seq::<T>::empty());
    } else {
        assert(p[p.len() - 1] == p.last());
        assert(!p.drop_last().contains(sep)) by {
            if p.drop_last().contains(sep) {
                let k = choose|k: int| 0 <= k < p.len() - 1 && p.drop_last()[k] == sep;
                assert(p[k] == sep);
            }
        }
        lemma_split_tail(s, p.drop_last(), sep);
        assert(all.drop_last() =~= s.push(sep) + p.drop_last());
        assert(all.last() == p.last());
        assert(p.drop_last().push(p.last()) =~= p);
        let before = split(s, sep).push(p.drop_last());
        assert(before.drop_last() =~= split(s, sep));
    }
}

/// Splitting what was joined gives the parts back, where there are some and none holds
/// the separator.
pub proof fn law_split_undoes_join<T>(parts: Seq<Seq<T>>, sep: T)
    requires
        parts.len() > 0,
        forall|i: int| 0 <= i < parts.len() ==> !(#[trigger] parts[i]).contains(sep),
    ensures
        split(join(parts, sep), sep) == parts,
    decreases parts.len(),
{
    if parts.len() == 1 {
        lemma_split_plain(parts[0], sep);
        assert(parts =~= seq![parts[0]]);
    } else {
        law_split_undoes_join(parts.drop_last(), sep);
        lemma_split_tail(join(parts.drop_last(), sep), parts.last(), sep);
        assert(parts.drop_last().push(parts.last()) =~= parts);
    }
}

/// Two parts with a separator between them are told apart where the first part does not
/// hold it.
pub proof fn lemma_cut<T>(a: Seq<T>, b: Seq<T>, c: Seq<T>, d: Seq<T>, sep: T)
    requires
        !a.contains(sep),
        !c.contains(sep),
        a + seq![sep] + b == c + seq![sep] + d,
    ensures
        a == c,
        b == d,
{
    let x = a + seq![sep] + b;
    let y = c + seq![sep] + d;
    assert(x[a.len() as int] == sep && y[c.len() as int] == sep);
    if a.len() < c.len() {
        assert(c[a.len() as int] == y[a.len() as int]);
    }
    if c.len() < a.len() {
        assert(a[c.len() as int] == x[c.len() as int]);
    }
    assert(x.len() == a.len() + 1 + b.len());
    assert(y.len() == c.len() + 1 + d.len());
    assert forall|i: int| 0 <= i < a.len() implies a[i] == c[i] by {
        assert(x[i] == a[i] && y[i] == c[i]);
    }
    assert forall|i: int| 0 <= i < b.len() implies b[i] == d[i] by {
        assert(x[a.len() + 1 + i] == b[i] && y[c.len() + 1 + i] == d[i]);
    }
    assert(a =~= c && b =~= d);
}

/// What is joined, with one more part behind it.
pub proof fn lemma_join_push<T>(parts: Seq<Seq<T>>, end: Seq<T>, sep: T)
    ensures
        join(parts.push(end), sep) == (if parts.len() == 0 {
            end
        } else {
            join(parts, sep).push(sep) + end
        }),
{
    assert(parts.push(end).drop_last() =~= parts);
}

/// Lists of parts that hold no separator are told apart by what they join to, where
/// they are not empty.
pub proof fn lemma_join_injective<T>(a: Seq<Seq<T>>, b: Seq<Seq<T>>, sep: T)
    requires
        a.len() > 0,
        b.len() > 0,
        forall|i: int| 0 <= i < a.len() ==> !(#[trigger] a[i]).contains(sep),
        forall|i: int| 0 <= i < b.len() ==> !(#[trigger] b[i]).contains(sep),
        join(a, sep) == join(b, sep),
    ensures
        a == b,
{
    law_split_undoes_join(a, sep);
    law_split_undoes_join(b, sep);
}

/// Cut a byte string at every separator.
pub fn split_bytes(s: &[u8], sep: u8) -> (r: Vec<Vec<u8>>)
    ensures
        views(r@) == split(s@, sep),
        r@.len() >= 1,
{
    let mut out: Vec<Vec<u8>> = Vec::new();
    let mut cur: Vec<u8> = Vec::new();
    assert(views(out@).push(cur@) =~= split(s@.take(0), sep));
    for i in 0..s.len()
        invariant
            views(out@).push(cur@) == split(s@.take(i as int), sep),
    {
        let b = s[i];
        let ghost before = split(s@.take(i as int), sep);
        assert(s@.take(i + 1).drop_last() =~= s@.take(i as int));
        let ghost pieces = views(out@);
        if b == sep {
            out.push(cur);
            cur = Vec::new();
            assert(views(out@) =~= before);
            assert(views(out@).push(cur@) =~= before.push(Seq::<u8>::empty()));
        } else {
            assert(before.drop_last() =~= pieces);
            assert(before.last() == cur@);
            cur.push(b);
        }
    }
    assert(s@.take(s@.len() as int) =~= s@);
    let ghost pieces = views(out@);
    out.push(cur);
    assert(views(out@) =~= pieces.push(cur@));
    out
}

/// Put byte strings together with a separator between each two.
pub fn join_bytes(parts: &Vec<Vec<u8>>, sep: u8) -> (r: Vec<u8>)
    ensures
        r@ == join(views(parts@), sep),
{
    let mut out: Vec<u8> = Vec::new();
    for i in 0..parts.len()
        invariant
            out@ == join(views(parts@).take(i as int), sep),
    {
        proof {
            assert(views(parts@).take(i + 1).drop_last() =~= views(parts@).take(i as int));
        }
        if i > 0 {
            out.push(sep);
        }
        let ghost had = out@;
        out.extend_from_slice(&parts[i]);
        assert(out@ =~= had + parts@[i as int]@);
        assert(views(parts@).take(i + 1).last() == parts@[i as int]@);
        if i == 0 {
            assert(out@ =~= parts@[0]@);
        }
    }
    assert(views(parts@).take(parts@.len() as int) =~= views(parts@));
    out
}

/// A copy of a byte string.
pub fn copy_bytes(s: &[u8]) -> (r: Vec<u8>)
    ensures
        r@ == s@,
{
    vstd::slice::slice_to_vec(s)
}

/// Whether two byte strings are equal.
pub fn bytes_eq(a: &[u8], b: &[u8]) -> (r: bool)
    ensures
        r == (a@ == b@),
{
    if a.len() != b.len() {
        return false;
    }
    for i in 0..a.len()
        invariant
            a@.len() == b@.len(),
            forall|j: int| 0 <= j < i ==> a@[j] == b@[j],
    {
        if a[i] != b[i] {
            return false;
        }
    }
    assert(a@ =~= b@);
    true
}

/// Whether `a` comes strictly before `b` in lexicographic byte order.
pub open spec fn bytes_lt(a: Seq<u8>, b: Seq<u8>) -> bool
    decreases a.len(),
{
    if b.len() == 0 {
        false
    } else if a.len() == 0 {
        true
    } else if a[0] != b[0] {
        a[0] < b[0]
    } else {
        bytes_lt(a.drop_first(), b.drop_first())
    }
}

/// Whether `a` comes strictly before `b` in the order of strings: character by
/// character, by scalar value.
pub open spec fn chars_lt(a: Seq<char>, b: Seq<char>) -> bool
    decreases a.len(),
{
    if b.len() == 0 {
        false
    } else if a.len() == 0 {
        true
    } else if a[0] != b[0] {
        a[0] < b[0]
    } else {
        chars_lt(a.drop_first(), b.drop_first())
    }
}

/// A strict weak order on `0..n`: what a sort needs of its comparison.
pub open spec fn is_order(n: int, lt: spec_fn(int, int) -> bool) -> bool {
    &&& forall|i: int| 0 <= i < n ==> !(#[trigger] lt(i, i))
    &&& forall|i: int, j: int, k: int|
        0 <= i < n && 0 <= j < n && 0 <= k < n && #[trigger] lt(i, j) && #[trigger] lt(j, k)
            ==> lt(i, k)
    &&& forall|i: int, j: int, k: int|
        0 <= i < n && 0 <= j < n && 0 <= k < n && #[trigger] lt(i, k) ==> #[trigger] lt(i, j) || lt(
            j,
            k,
        )
}

/// `i` comes before `j` in a stable sort: it is smaller, or neither is and it
/// stood earlier.
pub open spec fn stable_before(lt: spec_fn(int, int) -> bool, i: int, j: int) -> bool {
    lt(i, j) || (!lt(j, i) && i < j)
}

/// Whether `perm` lists `0..n` once each, in stable order.
pub open spec fn is_stable_order(n: int, lt: spec_fn(int, int) -> bool, perm: Seq<usize>) -> bool {
    &&& perm.len() == n
    &&& forall|a: int| 0 <= a < n ==> 0 <= #[trigger] perm[a] < n
    &&& forall|a: int, b: int|
        0 <= a < b < n ==> stable_before(lt, #[trigger] perm[a] as int, #[trigger] perm[b] as int)
    &&& forall|i: int| 0 <= i < n ==> #[trigger] perm.contains(i as usize)
}

/// The one stable order of `0..n` under a comparison.
pub open spec fn stable_perm(n: int, lt: spec_fn(int, int) -> bool) -> Seq<usize> {
    choose|perm: Seq<usize>| is_stable_order(n, lt, perm)
}

/// A sequence in stable order under a comparison of its items.
pub open spec fn sorted_by<T>(s: Seq<T>, lt: spec_fn(T, T) -> bool) -> Seq<T> {
    let perm = stable_perm(s.len() as int, |i: int, j: int| lt(s[i], s[j]));
    Seq::new(s.len(), |a: int| s[perm[a] as int])
}

/// Two stable orders under one comparison are the same.
pub proof fn lemma_stable_unique(
    n: int,
    lt: spec_fn(int, int) -> bool,
    p: Seq<usize>,
    q: Seq<usize>,
)
    requires
        is_order(n, lt),
        is_stable_order(n, lt, p),
        is_stable_order(n, lt, q),
    ensures
        p == q,
{
    assert forall|a: int| 0 <= a < n implies p[a] == q[a] by {
        lemma_stable_agree(n, lt, p, q, a);
    }
    assert(p =~= q);
}

proof fn lemma_stable_agree(
    n: int,
    lt: spec_fn(int, int) -> bool,
    p: Seq<usize>,
    q: Seq<usize>,
    a: int,
)
    requires
        is_order(n, lt),
        is_stable_order(n, lt, p),
        is_stable_order(n, lt, q),
        0 <= a < n,
    ensures
        forall|b: int| 0 <= b <= a ==> p[b] == q[b],
    decreases a,
{
    if a > 0 {
        lemma_stable_agree(n, lt, p, q, a - 1);
    }
    if p[a] != q[a] {
        let i = p[a] as int;
        let j = q[a] as int;
        assert(q.contains(i as usize));
        assert(p.contains(j as usize));
        let x = choose|x: int| 0 <= x < q.len() && q[x] == i as usize;
        let y = choose|y: int| 0 <= y < p.len() && p[y] == j as usize;
        if x < a {
            assert(p[x] == q[x]);
            assert(stable_before(lt, p[x] as int, p[a] as int));
        }
        if y < a {
            assert(p[y] == q[y]);
            assert(stable_before(lt, q[y] as int, q[a] as int));
        }
        assert(stable_before(lt, p[a] as int, p[y] as int));
        assert(stable_before(lt, q[a] as int, q[x] as int));
        assert(false);
    }
}

/// Two strictly increasing sequences with the same items are the same.
pub proof fn lemma_increasing_unique<T>(p: Seq<T>, q: Seq<T>, lt: spec_fn(T, T) -> bool)
    requires
        p.len() == q.len(),
        forall|x: T, y: T| #[trigger] lt(x, y) ==> !lt(y, x),
        forall|a: int, b: int| 0 <= a < b < p.len() ==> lt(p[a], p[b]),
        forall|a: int, b: int| 0 <= a < b < q.len() ==> lt(q[a], q[b]),
        forall|a: int| 0 <= a < p.len() ==> q.contains(#[trigger] p[a]),
        forall|a: int| 0 <= a < q.len() ==> p.contains(#[trigger] q[a]),
    ensures
        p == q,
{
    assert forall|a: int| 0 <= a < p.len() implies p[a] == q[a] by {
        lemma_increasing_agree(p, q, lt, a);
    }
    assert(p =~= q);
}

proof fn lemma_increasing_agree<T>(p: Seq<T>, q: Seq<T>, lt: spec_fn(T, T) -> bool, a: int)
    requires
        p.len() == q.len(),
        forall|x: T, y: T| #[trigger] lt(x, y) ==> !lt(y, x),
        forall|a: int, b: int| 0 <= a < b < p.len() ==> lt(p[a], p[b]),
        forall|a: int, b: int| 0 <= a < b < q.len() ==> lt(q[a], q[b]),
        forall|a: int| 0 <= a < p.len() ==> q.contains(#[trigger] p[a]),
        forall|a: int| 0 <= a < q.len() ==> p.contains(#[trigger] q[a]),
        0 <= a < p.len(),
    ensures
        forall|b: int| 0 <= b <= a ==> p[b] == q[b],
    decreases a,
{
    if a > 0 {
        lemma_increasing_agree(p, q, lt, a - 1);
    }
    if p[a] != q[a] {
        assert(q.contains(p[a]) && p.contains(q[a]));
        let x = choose|x: int| 0 <= x < q.len() && q[x] == p[a];
        let y = choose|y: int| 0 <= y < p.len() && p[y] == q[a];
        if x < a {
            assert(lt(p[x], p[a]));
        }
        if y < a {
            assert(lt(q[y], q[a]));
        }
        assert(lt(p[a], p[y]));
        assert(lt(q[a], q[x]));
        assert(false);
    }
}

/// The stable order of `0..n` under a comparison.
pub fn stable_order<F: Fn(usize, usize) -> bool>(
    n: usize,
    less: F,
    Ghost(lt): Ghost<spec_fn(int, int) -> bool>,
) -> (perm: Vec<usize>)
    requires
        is_order(n as int, lt),
        forall|i: usize, j: usize| i < n && j < n ==> call_requires(less, (i, j)),
        forall|i: usize, j: usize, r: bool|
            i < n && j < n && call_ensures(less, (i, j), r) ==> r == lt(i as int, j as int),
    ensures
        is_stable_order(n as int, lt, perm@),
        perm@ == stable_perm(n as int, lt),
{
    let mut perm: Vec<usize> = Vec::new();
    for i in 0..n
        invariant
            is_order(n as int, lt),
            forall|i: usize, j: usize| i < n && j < n ==> call_requires(less, (i, j)),
            forall|i: usize, j: usize, r: bool|
                i < n && j < n && call_ensures(less, (i, j), r) ==> r == lt(i as int, j as int),
            is_stable_order(i as int, lt, perm@),
    {
        let mut p: usize = i;
        while p > 0 && less(i, perm[p - 1])
            invariant
                p <= i < n,
                is_stable_order(i as int, lt, perm@),
                forall|i: usize, j: usize| i < n && j < n ==> call_requires(less, (i, j)),
                forall|i: usize, j: usize, r: bool|
                    i < n && j < n && call_ensures(less, (i, j), r) ==> r == lt(
                        i as int,
                        j as int,
                    ),
                forall|a: int| p <= a < i ==> lt(i as int, #[trigger] perm@[a] as int),
            ensures
                p <= i,
                forall|a: int| p <= a < i ==> lt(i as int, #[trigger] perm@[a] as int),
                p > 0 ==> !lt(i as int, perm@[p - 1] as int),
            decreases p,
        {
            p = p - 1;
        }
        proof {
            lemma_insert_stable(perm@, i as int, n as int, lt, p as int);
        }
        perm.insert(p, i);
    }
    proof {
        lemma_stable_unique(n as int, lt, perm@, stable_perm(n as int, lt));
    }
    perm
}

/// A stable order exists under every strict weak order.
pub proof fn lemma_stable_exists(n: nat, lt: spec_fn(int, int) -> bool)
    requires
        n <= usize::MAX,
        is_order(n as int, lt),
    ensures
        is_stable_order(n as int, lt, stable_perm(n as int, lt)),
{
    let p = lemma_stable_build(n, n, lt);
    assert(is_stable_order(n as int, lt, p));
}

proof fn lemma_stable_build(i: nat, n: nat, lt: spec_fn(int, int) -> bool) -> (p: Seq<usize>)
    requires
        i <= n <= usize::MAX,
        is_order(n as int, lt),
    ensures
        is_stable_order(i as int, lt, p),
    decreases i,
{
    if i == 0 {
        Seq::empty()
    } else {
        let was = lemma_stable_build((i - 1) as nat, n, lt);
        let k = (i - 1) as usize;
        let p = lemma_insert_point(was, i - 1, n as int, lt, i - 1);
        let now = was.insert(p, k);
        lemma_insert_stable(was, i - 1, n as int, lt, p);
        now
    }
}

proof fn lemma_insert_point(
    was: Seq<usize>,
    i: int,
    n: int,
    lt: spec_fn(int, int) -> bool,
    from: int,
) -> (p: int)
    requires
        0 <= i < n <= usize::MAX,
        0 <= from <= i,
        is_order(n, lt),
        is_stable_order(i, lt, was),
        forall|a: int| from <= a < i ==> lt(i, #[trigger] was[a] as int),
    ensures
        0 <= p <= i,
        forall|a: int| p <= a < i ==> lt(i, #[trigger] was[a] as int),
        p > 0 ==> !lt(i, was[p - 1] as int),
    decreases from,
{
    if from > 0 && lt(i, was[from - 1] as int) {
        lemma_insert_point(was, i, n, lt, from - 1)
    } else {
        from
    }
}

/// Putting `i` behind the last item that it is not smaller than keeps the order.
proof fn lemma_insert_stable(
    was: Seq<usize>,
    i: int,
    n: int,
    lt: spec_fn(int, int) -> bool,
    p: int,
)
    requires
        0 <= i < n <= usize::MAX,
        is_order(n, lt),
        is_stable_order(i, lt, was),
        0 <= p <= i,
        forall|a: int| p <= a < i ==> lt(i, #[trigger] was[a] as int),
        p > 0 ==> !lt(i, was[p - 1] as int),
    ensures
        is_stable_order(i + 1, lt, was.insert(p, i as usize)),
{
    let now = was.insert(p, i as usize);
    assert forall|a: int| 0 <= a < p implies !lt(i, #[trigger] was[a] as int) by {
        if a < p - 1 {
            assert(stable_before(lt, was[a] as int, was[p - 1] as int));
        }
    }
    assert forall|a: int, b: int| 0 <= a < b < i + 1 implies stable_before(
        lt,
        #[trigger] now[a] as int,
        #[trigger] now[b] as int,
    ) by {
        if a < p && b > p {
            assert(stable_before(lt, was[a] as int, was[b - 1] as int));
        } else if a > p {
            assert(stable_before(lt, was[a - 1] as int, was[b - 1] as int));
        } else if b < p {
            assert(stable_before(lt, was[a] as int, was[b] as int));
        } else if b == p {
            assert(now[b] == i && now[a] == was[a]);
        } else {
            assert(now[a] == i && now[b] == was[b - 1]);
        }
    }
    assert forall|k: int| 0 <= k < i + 1 implies #[trigger] now.contains(k as usize) by {
        if k == i {
            assert(now[p] == i as usize);
        } else {
            assert(was.contains(k as usize));
            let q = choose|q: int| 0 <= q < was.len() && was[q] == k as usize;
            if q < p {
                assert(now[q] == k as usize);
            } else {
                assert(now[q + 1] == k as usize);
            }
        }
    }
}

/// Lexicographic byte order is a strict weak order.
pub proof fn lemma_bytes_order(a: Seq<u8>, b: Seq<u8>, c: Seq<u8>)
    ensures
        !bytes_lt(a, a),
        bytes_lt(a, b) && bytes_lt(b, c) ==> bytes_lt(a, c),
        bytes_lt(a, c) ==> bytes_lt(a, b) || bytes_lt(b, c),
        !bytes_lt(a, b) && !bytes_lt(b, a) ==> a == b,
    decreases a.len(),
{
    if a.len() > 0 {
        let (bb, cc) = (if b.len() > 0 {
            b.drop_first()
        } else {
            b
        }, if c.len() > 0 {
            c.drop_first()
        } else {
            c
        });
        lemma_bytes_order(a.drop_first(), bb, cc);
        if b.len() > 0 && a[0] == b[0] && a.drop_first() == b.drop_first() {
            assert(a =~= seq![a[0]] + a.drop_first());
            assert(b =~= seq![b[0]] + b.drop_first());
        }
    } else if b.len() == 0 {
        assert(a =~= b);
    }
}

/// The order of strings is a strict weak order.
pub proof fn lemma_chars_order(a: Seq<char>, b: Seq<char>, c: Seq<char>)
    ensures
        !chars_lt(a, a),
        chars_lt(a, b) && chars_lt(b, c) ==> chars_lt(a, c),
        chars_lt(a, c) ==> chars_lt(a, b) || chars_lt(b, c),
        !chars_lt(a, b) && !chars_lt(b, a) ==> a == b,
    decreases a.len(),
{
    if a.len() > 0 {
        let (bb, cc) = (if b.len() > 0 {
            b.drop_first()
        } else {
            b
        }, if c.len() > 0 {
            c.drop_first()
        } else {
            c
        });
        lemma_chars_order(a.drop_first(), bb, cc);
        if b.len() > 0 && a[0] == b[0] && a.drop_first() == b.drop_first() {
            assert(a =~= seq![a[0]] + a.drop_first());
            assert(b =~= seq![b[0]] + b.drop_first());
        }
    } else if b.len() == 0 {
        assert(a =~= b);
    }
}

/// Compare two byte strings.
pub fn bytes_less(a: &[u8], b: &[u8]) -> (r: bool)
    ensures
        r == bytes_lt(a@, b@),
{
    let mut i: usize = 0;
    assert(a@.skip(0) =~= a@);
    assert(b@.skip(0) =~= b@);
    while i < a.len() && i < b.len() && a[i] == b[i]
        invariant
            i <= a@.len(),
            i <= b@.len(),
            bytes_lt(a@, b@) == bytes_lt(a@.skip(i as int), b@.skip(i as int)),
        decreases a@.len() - i,
    {
        proof {
            assert(a@.skip(i as int).drop_first() =~= a@.skip(i + 1));
            assert(b@.skip(i as int).drop_first() =~= b@.skip(i + 1));
        }
        i = i + 1;
    }
    if i >= b.len() {
        false
    } else if i >= a.len() {
        true
    } else {
        a[i] < b[i]
    }
}

/// Compare two strings.
pub fn str_less(x: &str, y: &str) -> (r: bool)
    ensures
        r == chars_lt(x@, y@),
{
    let a = crate::text::chars_of(x);
    let b = crate::text::chars_of(y);
    let mut i: usize = 0;
    assert(a@.skip(0) =~= a@);
    assert(b@.skip(0) =~= b@);
    while i < a.len() && i < b.len() && a[i] == b[i]
        invariant
            i <= a@.len(),
            i <= b@.len(),
            chars_lt(a@, b@) == chars_lt(a@.skip(i as int), b@.skip(i as int)),
        decreases a@.len() - i,
    {
        proof {
            assert(a@.skip(i as int).drop_first() =~= a@.skip(i + 1));
            assert(b@.skip(i as int).drop_first() =~= b@.skip(i + 1));
        }
        i = i + 1;
    }
    if i >= b.len() {
        false
    } else if i >= a.len() {
        true
    } else {
        a[i] < b[i]
    }
}

/// Strings in order, ties kept in place.
pub fn sort_texts(items: &Vec<String>) -> (r: Vec<String>)
    ensures
        texts(r@) == sorted_by(texts(items@), |a: Seq<char>, b: Seq<char>| chars_lt(a, b)),
{
    let ghost all = texts(items@);
    let ghost f = |a: Seq<char>, b: Seq<char>| chars_lt(a, b);
    let ghost lt = |i: int, j: int| f(all[i], all[j]);
    let less = |i: usize, j: usize| -> (r: bool)
        requires
            i < items@.len(),
            j < items@.len(),
        ensures
            r == chars_lt(items@[i as int]@, items@[j as int]@),
        { str_less(&items[i], &items[j]) };
    proof {
        lemma_lt_is_order(all);
    }
    let order = stable_order(items.len(), less, Ghost(lt));
    let mut out: Vec<String> = Vec::new();
    for k in 0..order.len()
        invariant
            all == texts(items@),
            order@.len() == items@.len(),
            forall|a: int| 0 <= a < order@.len() ==> (#[trigger] order@[a]) < items@.len(),
            out@.len() == k,
            forall|a: int| 0 <= a < k ==> (#[trigger] out@[a])@ == all[order@[a] as int],
    {
        out.push(items[order[k]].clone());
    }
    assert(texts(out@) =~= sorted_by(all, f));
    out
}

/// The order of strings orders the places of a list.
pub proof fn lemma_lt_is_order(all: Seq<Seq<char>>)
    ensures
        is_order(
            all.len() as int,
            |i: int, j: int| (|a: Seq<char>, b: Seq<char>| chars_lt(a, b))(all[i], all[j]),
        ),
{
    let lt = |i: int, j: int| (|a: Seq<char>, b: Seq<char>| chars_lt(a, b))(all[i], all[j]);
    assert forall|i: int| !#[trigger] lt(i, i) by {
        lemma_chars_order(all[i], all[i], all[i]);
    }
    assert forall|i: int, j: int, k: int| #[trigger] lt(i, j) && #[trigger] lt(j, k) implies lt(
        i,
        k,
    ) by {
        lemma_chars_order(all[i], all[j], all[k]);
    }
    assert forall|i: int, j: int, k: int| #[trigger] lt(i, k) implies #[trigger] lt(i, j) || lt(
        j,
        k,
    ) by {
        lemma_chars_order(all[i], all[j], all[k]);
    }
}

/// Whether `r` lists the items of `s` once each, in order.
pub open spec fn is_sorted_set(r: Seq<Seq<char>>, s: Seq<Seq<char>>) -> bool {
    &&& forall|a: int, b: int| 0 <= a < b < r.len() ==> chars_lt(#[trigger] r[a], #[trigger] r[b])
    &&& forall|x: Seq<char>| #[trigger] r.contains(x) <==> s.contains(x)
}

/// Strings in order, each once.
pub fn sort_set(items: &Vec<String>) -> (r: Vec<String>)
    ensures
        is_sorted_set(texts(r@), texts(items@)),
{
    let ghost all = texts(items@);
    let mut out: Vec<String> = Vec::new();
    for i in 0..items.len()
        invariant
            all == texts(items@),
            is_sorted_set(texts(out@), all.take(i as int)),
    {
        let x = &items[i];
        let mut p: usize = 0;
        while p < out.len() && str_less(&out[p], x)
            invariant
                p <= out@.len(),
                forall|a: int| 0 <= a < p ==> chars_lt(#[trigger] texts(out@)[a], x@),
            ensures
                p <= out@.len(),
                forall|a: int| 0 <= a < p ==> chars_lt(#[trigger] texts(out@)[a], x@),
                p < out@.len() ==> !chars_lt(texts(out@)[p as int], x@),
            decreases out@.len() - p,
        {
            p = p + 1;
        }
        let ghost was = texts(out@);
        proof {
            assert(all.take(i + 1) =~= all.take(i as int).push(x@));
            assert forall|y: Seq<char>| #[trigger] all.take(i + 1).contains(y) <==> all.take(
                i as int,
            ).contains(y) || y == x@ by {
                let t = all.take(i as int);
                if t.contains(y) {
                    let k = choose|k: int| 0 <= k < t.len() && t[k] == y;
                    assert(all.take(i + 1)[k] == y);
                }
                assert(all.take(i + 1)[i as int] == x@);
                let u = all.take(i + 1);
                if u.contains(y) && y != x@ {
                    let k = choose|k: int| 0 <= k < u.len() && u[k] == y;
                    assert(t[k] == y);
                }
            }
        }
        if p < out.len() && crate::text::str_eq(&out[p], x) {
            assert(was[p as int] == x@);
            assert(was.contains(x@));
        } else {
            out.insert(p, x.clone());
            let ghost now = texts(out@);
            proof {
                assert(now =~= was.insert(p as int, x@));
                assert forall|b: int| p <= b < was.len() implies chars_lt(x@, #[trigger] was[b]) by {
                    lemma_chars_order(x@, was[p as int], x@);
                    lemma_chars_order(x@, was[p as int], was[b]);
                }
                assert forall|a: int, b: int| 0 <= a < b < now.len() implies chars_lt(
                    #[trigger] now[a],
                    #[trigger] now[b],
                ) by {
                    if b < p {
                        assert(chars_lt(was[a], was[b]));
                    } else if b == p {
                        assert(now[a] == was[a]);
                    } else if a < p {
                        assert(chars_lt(was[a], was[b - 1]));
                    } else if a == p {
                        assert(chars_lt(x@, was[b - 1]));
                    } else {
                        assert(chars_lt(was[a - 1], was[b - 1]));
                    }
                }
                assert forall|y: Seq<char>| #[trigger] now.contains(y) <==> all.take(
                    i + 1,
                ).contains(y) by {
                    if was.contains(y) {
                        let k = choose|k: int| 0 <= k < was.len() && was[k] == y;
                        if k < p {
                            assert(now[k] == y);
                        } else {
                            assert(now[k + 1] == y);
                        }
                    }
                    assert(now[p as int] == x@);
                    if now.contains(y) && y != x@ {
                        let k = choose|k: int| 0 <= k < now.len() && now[k] == y;
                        if k < p {
                            assert(was[k] == y);
                        } else {
                            assert(was[k - 1] == y);
                        }
                        assert(was.contains(y));
                    }
                }
            }
        }
    }
    assert(all.take(all.len() as int) =~= all);
    out
}

/// Put strings together with a separator between each two.
pub fn join_texts(parts: &Vec<String>, sep: char) -> (r: String)
    ensures
        r@ == join(texts(parts@), sep),
{
    let mut out = String::new();
    let ghost all = texts(parts@);
    for i in 0..parts.len()
        invariant
            all == texts(parts@),
            out@ == join(all.take(i as int), sep),
    {
        assert(all.take(i + 1).drop_last() =~= all.take(i as int));
        if i > 0 {
            out.push(sep);
        }
        let ghost had = out@;
        crate::text::push_str(&mut out, &parts[i]);
        assert(all.take(i + 1).last() == parts@[i as int]@);
        if i == 0 {
            assert(out@ =~= all.take(1)[0]);
        }
    }
    assert(all.take(all.len() as int) =~= all);
    out
}

/// What a sequence holds after a push.
pub proof fn lemma_push_contains<T>(s: Seq<T>, y: T, x: T)
    ensures
        s.push(y).contains(x) <==> s.contains(x) || x == y,
{
    if s.contains(x) {
        let k = choose|k: int| 0 <= k < s.len() && s[k] == x;
        assert(s.push(y)[k] == x);
    }
    assert(s.push(y)[s.len() as int] == y);
}

/// Items in another order are the same items, each as often.
pub proof fn lemma_perm_multiset<T>(s: Seq<T>, perm: Seq<usize>)
    requires
        perm.len() == s.len(),
        forall|a: int| 0 <= a < perm.len() ==> (#[trigger] perm[a]) < s.len(),
        forall|a: int, b: int| 0 <= a < b < perm.len() ==> perm[a] != perm[b],
    ensures
        Seq::new(s.len(), |k: int| s[perm[k] as int]).to_multiset() == s.to_multiset(),
    decreases s.len(),
{
    let n = s.len();
    let moved = Seq::new(n, |k: int| s[perm[k] as int]);
    if n == 0 {
        assert(moved =~= s);
    } else {
        let i = perm[n - 1] as int;
        let rest = s.remove(i);
        let down = Seq::new(
            (n - 1) as nat,
            |k: int|
                if perm[k] > i {
                    (perm[k] - 1) as usize
                } else {
                    perm[k]
                },
        );
        assert forall|a: int| 0 <= a < down.len() implies (#[trigger] down[a]) < rest.len() by {
            assert(perm[a] != perm[n - 1]);
        }
        assert forall|a: int, b: int| 0 <= a < b < down.len() implies down[a] != down[b] by {
            assert(perm[a] != perm[b]);
            assert(perm[a] != perm[n - 1]);
            assert(perm[b] != perm[n - 1]);
        }
        lemma_perm_multiset(rest, down);
        let head = Seq::new((n - 1) as nat, |k: int| rest[down[k] as int]);
        assert forall|k: int| 0 <= k < n - 1 implies #[trigger] moved.drop_last()[k] == head[k] by {
            assert(perm[k] != perm[n - 1]);
        }
        assert(moved.drop_last() =~= head);
        assert(moved =~= head.push(s[i]));
        s.to_multiset_ensures();
        head.to_multiset_ensures();
        assert(s.contains(s[i]));
        assert(head.to_multiset() == s.to_multiset().remove(s[i]));
        assert(moved.to_multiset() =~= s.to_multiset());
    }
}

/// Sorting keeps every item, each as often.
pub proof fn lemma_sorted_multiset<T>(s: Seq<T>, lt: spec_fn(T, T) -> bool)
    requires
        s.len() <= usize::MAX,
        is_order(s.len() as int, |i: int, j: int| lt(s[i], s[j])),
    ensures
        sorted_by(s, lt).to_multiset() == s.to_multiset(),
{
    let less = |i: int, j: int| lt(s[i], s[j]);
    lemma_stable_exists(s.len(), less);
    let perm = stable_perm(s.len() as int, less);
    assert forall|a: int, b: int| 0 <= a < b < perm.len() implies perm[a] != perm[b] by {
        assert(stable_before(less, perm[a] as int, perm[b] as int));
    }
    lemma_perm_multiset(s, perm);
    assert(sorted_by(s, lt) =~= Seq::new(s.len(), |k: int| s[perm[k] as int]));
}

/// Strings in order stand in order.
pub proof fn lemma_sorted_texts(all: Seq<Seq<char>>)
    requires
        all.len() <= usize::MAX,
    ensures
        vstd::relations::sorted_by(
            sorted_by(all, |a: Seq<char>, b: Seq<char>| chars_lt(a, b)),
            |a: Seq<char>, b: Seq<char>| !chars_lt(b, a),
        ),
{
    let f = |a: Seq<char>, b: Seq<char>| chars_lt(a, b);
    let lt = |i: int, j: int| f(all[i], all[j]);
    lemma_lt_is_order(all);
    lemma_stable_exists(all.len(), lt);
    let perm = stable_perm(all.len() as int, lt);
    let out = sorted_by(all, f);
    assert forall|i: int, j: int| 0 <= i < j < out.len() implies !chars_lt(out[j], out[i]) by {
        assert(stable_before(lt, perm[i] as int, perm[j] as int));
        lemma_chars_order(out[i], out[j], out[i]);
    }
}

/// Ordered lists of the same strings, each as often, are one list.
pub proof fn lemma_sorted_texts_unique(x: Seq<Seq<char>>, y: Seq<Seq<char>>)
    requires
        vstd::relations::sorted_by(x, |a: Seq<char>, b: Seq<char>| !chars_lt(b, a)),
        vstd::relations::sorted_by(y, |a: Seq<char>, b: Seq<char>| !chars_lt(b, a)),
        x.to_multiset() == y.to_multiset(),
    ensures
        x == y,
{
    let leq = |a: Seq<char>, b: Seq<char>| !chars_lt(b, a);
    assert(vstd::relations::total_ordering(leq)) by {
        assert forall|x: Seq<char>, y: Seq<char>, z: Seq<char>| true implies {
            &&& leq(x, x)
            &&& (#[trigger] leq(x, y) && leq(y, x) ==> x == y)
            &&& (leq(x, y) && #[trigger] leq(y, z) ==> leq(x, z))
            &&& (leq(x, y) || leq(y, x))
        } by {
            lemma_chars_order(x, y, z);
            lemma_chars_order(z, x, y);
            lemma_chars_order(z, y, x);
            lemma_chars_order(y, x, y);
            lemma_chars_order(x, y, x);
        }
        assert forall|x: Seq<char>| #[trigger] leq(x, x) by {
            lemma_chars_order(x, x, x);
        }
    }
    vstd::seq_lib::lemma_sorted_unique(x, y, leq);
}

/// Bytes come before others where they are smaller at the first place at which they
/// differ, or are the start of the others.
pub proof fn law_bytes_are_ordered_at_the_first_difference(a: &[u8], b: &[u8], r: bool)
    requires
        call_ensures(bytes_less, (a, b), r),
    ensures
        r <==> exists|k: int|
            0 <= k <= a@.len() && k < b@.len() && #[trigger] a@.take(k) == b@.take(k) && (k
                == a@.len() || a@[k] < b@[k]),
{
    lemma_bytes_differ(a@, b@);
}

proof fn lemma_bytes_differ(a: Seq<u8>, b: Seq<u8>)
    ensures
        bytes_lt(a, b) <==> exists|k: int|
            0 <= k <= a.len() && k < b.len() && #[trigger] a.take(k) == b.take(k) && (k == a.len()
                || a[k] < b[k]),
    decreases a.len(),
{
    if b.len() > 0 {
        assert(a.take(0) =~= b.take(0));
        if a.len() > 0 && a[0] == b[0] {
            let (x, y) = (a.drop_first(), b.drop_first());
            lemma_bytes_differ(x, y);
            if bytes_lt(x, y) {
                let k = choose|k: int|
                    0 <= k <= x.len() && k < y.len() && #[trigger] x.take(k) == y.take(k) && (k
                        == x.len() || x[k] < y[k]);
                assert(a.take(k + 1) =~= seq![a[0]] + x.take(k));
                assert(b.take(k + 1) =~= seq![b[0]] + y.take(k));
            }
            if exists|k: int|
                0 <= k <= a.len() && k < b.len() && #[trigger] a.take(k) == b.take(k) && (k
                    == a.len() || a[k] < b[k]) {
                let k = choose|k: int|
                    0 <= k <= a.len() && k < b.len() && #[trigger] a.take(k) == b.take(k) && (k
                        == a.len() || a[k] < b[k]);
                assert(x.take(k - 1) =~= a.take(k).drop_first());
                assert(y.take(k - 1) =~= b.take(k).drop_first());
            }
        } else if a.len() > 0 {
            assert forall|k: int| 0 < k <= a.len() && k < b.len() implies #[trigger] a.take(k)
                != b.take(k) by {
                assert(a.take(k)[0] == a[0] && b.take(k)[0] == b[0]);
            }
        }
    }
}

/// A text comes before another one where its character is smaller at the first place at
/// which they differ, or where it is the start of the other.
pub proof fn law_texts_are_ordered_at_the_first_difference(a: &str, b: &str, r: bool)
    requires
        call_ensures(str_less, (a, b), r),
    ensures
        r <==> exists|k: int|
            0 <= k <= a@.len() && k < b@.len() && #[trigger] a@.take(k) == b@.take(k) && (k
                == a@.len() || a@[k] < b@[k]),
{
    lemma_texts_differ(a@, b@);
}

proof fn lemma_texts_differ(a: Seq<char>, b: Seq<char>)
    ensures
        chars_lt(a, b) <==> exists|k: int|
            0 <= k <= a.len() && k < b.len() && #[trigger] a.take(k) == b.take(k) && (k == a.len()
                || a[k] < b[k]),
    decreases a.len(),
{
    if b.len() > 0 {
        assert(a.take(0) =~= b.take(0));
        if a.len() > 0 && a[0] == b[0] {
            let (x, y) = (a.drop_first(), b.drop_first());
            lemma_texts_differ(x, y);
            if chars_lt(x, y) {
                let k = choose|k: int|
                    0 <= k <= x.len() && k < y.len() && #[trigger] x.take(k) == y.take(k) && (k
                        == x.len() || x[k] < y[k]);
                assert(a.take(k + 1) =~= seq![a[0]] + x.take(k));
                assert(b.take(k + 1) =~= seq![b[0]] + y.take(k));
            }
            if exists|k: int|
                0 <= k <= a.len() && k < b.len() && #[trigger] a.take(k) == b.take(k) && (k
                    == a.len() || a[k] < b[k]) {
                let k = choose|k: int|
                    0 <= k <= a.len() && k < b.len() && #[trigger] a.take(k) == b.take(k) && (k
                        == a.len() || a[k] < b[k]);
                assert(x.take(k - 1) =~= a.take(k).drop_first());
                assert(y.take(k - 1) =~= b.take(k).drop_first());
            }
        } else if a.len() > 0 {
            assert forall|k: int| 0 < k <= a.len() && k < b.len() implies #[trigger] a.take(k)
                != b.take(k) by {
                assert(a.take(k)[0] == a[0] && b.take(k)[0] == b[0]);
            }
        }
    }
}

} // verus!
