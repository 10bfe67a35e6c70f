//! Path extraction from `diff --git a/X b/Y` headers.
//!
//! Under `--no-renames` the two sides are always the same path, so the header is
//! split symmetrically: at the point where the `a/` half equals the `b/` half.
//! C-quoted paths are unquoted first.
use vstd::prelude::*;

use crate::seqs::{bytes_eq, copy_bytes};
use crate::text::{first_occurrence, lemma_first_occurrence, occurs_at};

verus! {

/// `memchr::memmem::find`: the first place where the needle stands in the
/// haystack, if there is one.
#[verifier::external_body]
fn find_bytes(haystack: &[u8], needle: &[u8]) -> (r: Option<usize>)
    ensures
        match r {
            Some(i) => first_occurrence(haystack@, needle@, 0) == Some(i as int),
            None => first_occurrence(haystack@, needle@, 0) is None,
        },
{
    memchr::memmem::find(haystack, needle)
}

/// The byte that a one-letter escape stands for.
pub open spec fn escaped(c: u8) -> Option<u8> {
    if c == 110 {
        Some(10u8)
    } else if c == 116 {
        Some(9u8)
    } else if c == 114 {
        Some(13u8)
    } else if c == 97 {
        Some(7u8)
    } else if c == 98 {
        Some(8u8)
    } else if c == 102 {
        Some(12u8)
    } else if c == 118 {
        Some(11u8)
    } else if c == 92 {
        Some(92u8)
    } else if c == 34 {
        Some(34u8)
    } else {
        None
    }
}

pub open spec fn is_octal(c: u8) -> bool {
    48 <= c <= 55
}

/// The number of octal digits of an escape that starts at `i`: up to three.
pub open spec fn octal_len(s: Seq<u8>, i: int) -> int {
    if !(i + 1 < s.len() && is_octal(s[i + 1])) {
        1
    } else if !(i + 2 < s.len() && is_octal(s[i + 2])) {
        2
    } else {
        3
    }
}

/// The number that `n` octal digits from `i` on spell.
pub open spec fn octal_value(s: Seq<u8>, i: int, n: int) -> int
    decreases n,
{
    if n <= 0 {
        0
    } else {
        8 * octal_value(s, i, n - 1) + (s[i + n - 1] - 48)
    }
}

pub open spec fn prepend(b: u8, rest: Option<(Seq<u8>, int)>) -> Option<(Seq<u8>, int)> {
    match rest {
        Some((bytes, end)) => Some((seq![b] + bytes, end)),
        None => None,
    }
}

/// What stands from `i` to the closing quote, decoded, and the place behind the
/// quote. An octal escape stands for the low eight bits of its number.
pub open spec fn unquoted(s: Seq<u8>, i: int) -> Option<(Seq<u8>, int)>
    decreases s.len() - i,
{
    if i < 0 || i >= s.len() {
        None
    } else if s[i] == 34 {
        Some((Seq::empty(), i + 1))
    } else if s[i] == 92 {
        if i + 1 >= s.len() {
            None
        } else {
            match escaped(s[i + 1]) {
                Some(b) => prepend(b, unquoted(s, i + 2)),
                None => if is_octal(s[i + 1]) {
                    let n = octal_len(s, i + 1);
                    prepend(
                        (octal_value(s, i + 1, n) % 256) as u8,
                        unquoted(s, i + 1 + n),
                    )
                } else {
                    None
                },
            }
        }
    } else {
        prepend(s[i], unquoted(s, i + 1))
    }
}

/// What a quoted string at the start of `s` says, and what follows it.
pub open spec fn quoted_prefix(s: Seq<u8>) -> Option<(Seq<u8>, Seq<u8>)> {
    if s.len() == 0 || s[0] != 34 {
        None
    } else {
        match unquoted(s, 1) {
            Some((bytes, end)) => Some((bytes, s.skip(end))),
            None => None,
        }
    }
}

fn escape_of(c: u8) -> (r: Option<u8>)
    ensures
        r == escaped(c),
{
    if c == 110 {
        Some(10)
    } else if c == 116 {
        Some(9)
    } else if c == 114 {
        Some(13)
    } else if c == 97 {
        Some(7)
    } else if c == 98 {
        Some(8)
    } else if c == 102 {
        Some(12)
    } else if c == 118 {
        Some(11)
    } else if c == 92 {
        Some(92)
    } else if c == 34 {
        Some(34)
    } else {
        None
    }
}

/// What was decoded so far, and what is still to come.
spec fn resumed(done: Seq<u8>, rest: Option<(Seq<u8>, int)>) -> Option<(Seq<u8>, int)> {
    match rest {
        Some((bytes, end)) => Some((done + bytes, end)),
        None => None,
    }
}

proof fn lemma_resume(done: Seq<u8>, b: u8, rest: Option<(Seq<u8>, int)>)
    ensures
        resumed(done, prepend(b, rest)) == resumed(done.push(b), rest),
{
    match rest {
        Some((bytes, end)) => {
            assert(done + (seq![b] + bytes) =~= done.push(b) + bytes);
        },
        None => {},
    }
}

proof fn lemma_unquoted_end(s: Seq<u8>, i: int)
    ensures
        unquoted(s, i) matches Some((_, end)) ==> i < end <= s.len(),
    decreases s.len() - i,
{
    if 0 <= i < s.len() && s[i] != 34 {
        if s[i] == 92 {
            if i + 1 < s.len() {
                lemma_unquoted_end(s, i + 2);
                lemma_unquoted_end(s, i + 1 + octal_len(s, i + 1));
            }
        } else {
            lemma_unquoted_end(s, i + 1);
        }
    }
}

/// Decode one git C-quoted string starting at `s[0] == '"'`. Returns the decoded
/// bytes and the remainder after the closing quote.
pub fn unquote_c(s: &[u8]) -> (r: Option<(Vec<u8>, &[u8])>)
    ensures
        match r {
            Some((bytes, rest)) => quoted_prefix(s@) == Some((bytes@, rest@)),
            None => quoted_prefix(s@) is None,
        },
{
    if s.len() == 0 || s[0] != 34 {
        return None;
    }
    let mut out: Vec<u8> = Vec::new();
    let mut i: usize = 1;
    proof {
        match unquoted(s@, 1) {
            Some((bytes, end)) => {
                assert(out@ + bytes =~= bytes);
            },
            None => {},
        }
    }
    while i < s.len()
        invariant
            1 <= i <= s@.len(),
            s@[0] == 34,
            unquoted(s@, 1) == resumed(out@, unquoted(s@, i as int)),
        decreases s@.len() - i,
    {
        let c = s[i];
        let ghost done = out@;
        if c == 34 {
            let rest = vstd::slice::slice_subrange(s, i + 1, s.len());
            assert(rest@ =~= s@.skip(i + 1));
            assert(out@ + Seq::<u8>::empty() =~= out@);
            return Some((out, rest));
        }
        if c == 92 {
            if i + 1 >= s.len() {
                return None;
            }
            let e = s[i + 1];
            match escape_of(e) {
                Some(b) => {
                    proof {
                        lemma_resume(done, b, unquoted(s@, i + 2));
                    }
                    out.push(b);
                    i = i + 2;
                },
                None => {
                    if !(e >= 48 && e <= 55) {
                        return None;
                    }
                    let mut val: u32 = 0;
                    let mut n: usize = 0;
                    while n < 3 && n < s.len() - i - 1 && s[i + 1 + n] >= 48 && s[i + 1 + n] <= 55
                        invariant
                            n <= 3,
                            i + 1 < s.len(),
                            i + 1 + n <= s.len(),
                            val == octal_value(s@, i + 1, n as int),
                            n == 0 ==> val == 0,
                            n == 1 ==> val < 8,
                            n == 2 ==> val < 64,
                            n == 3 ==> val < 512,
                            forall|k: int| i + 1 <= k < i + 1 + n ==> is_octal(#[trigger] s@[k]),
                        decreases 3 - n,
                    {
                        val = val * 8 + (s[i + 1 + n] - 48) as u32;
                        n = n + 1;
                    }
                    proof {
                        assert(is_octal(s@[i + 1]));
                        assert(n == octal_len(s@, i + 1)) by {
                            if n >= 2 {
                                assert(is_octal(s@[i + 1 + 1]));
                            }
                            if n >= 3 {
                                assert(is_octal(s@[i + 1 + 2]));
                            }
                        }
                        lemma_resume(done, (val % 256) as u8, unquoted(s@, i + 1 + n));
                    }
                    out.push((val % 256) as u8);
                    i = i + 1 + n;
                },
            }
        } else {
            proof {
                lemma_resume(done, c, unquoted(s@, i + 1));
            }
            out.push(c);
            i = i + 1;
        }
    }
    None
}

/// The path behind `a/` and `b/`, where both halves name the same one.
pub open spec fn common_path(a: Seq<u8>, b: Seq<u8>) -> Option<Seq<u8>> {
    if a.len() >= 2 && a[0] == 97 && a[1] == 47 && b.len() >= 2 && b[0] == 98 && b[1] == 47
        && a.skip(2) == b.skip(2) {
        Some(a.skip(2))
    } else {
        None
    }
}

fn strip_ab(a: &[u8], b: &[u8]) -> (r: Option<Vec<u8>>)
    ensures
        match r {
            Some(p) => common_path(a@, b@) == Some(p@),
            None => common_path(a@, b@) is None,
        },
{
    if a.len() >= 2 && a[0] == 97 && a[1] == 47 && b.len() >= 2 && b[0] == 98 && b[1] == 47 {
        let x = vstd::slice::slice_subrange(a, 2, a.len());
        let y = vstd::slice::slice_subrange(b, 2, b.len());
        assert(x@ =~= a@.skip(2));
        assert(y@ =~= b@.skip(2));
        if bytes_eq(x, y) {
            return Some(copy_bytes(x));
        }
    }
    None
}

/// ` b/`, where the second half of a header starts.
pub open spec fn boundary() -> Seq<u8> {
    seq![32u8, 98u8, 47u8]
}

/// ` "b/`, where a quoted second half starts.
pub open spec fn quoted_boundary() -> Seq<u8> {
    seq![32u8, 34u8, 98u8, 47u8]
}

/// The path at the first boundary from `from` on where both halves agree.
pub open spec fn split_path(rest: Seq<u8>, from: int) -> Option<Seq<u8>>
    decreases rest.len() - from,
{
    if from < 0 || from >= rest.len() {
        None
    } else if occurs_at(rest, boundary(), from) && common_path(rest.take(from), rest.skip(from + 1))
        is Some {
        common_path(rest.take(from), rest.skip(from + 1))
    } else {
        split_path(rest, from + 1)
    }
}

/// The path that a header names.
pub open spec fn header_path(rest: Seq<u8>) -> Option<Seq<u8>> {
    if rest.len() > 0 && rest[0] == 34 {
        match quoted_prefix(rest) {
            None => None,
            Some((a, after)) => if after.len() == 0 || after[0] != 32 {
                None
            } else {
                let second = after.skip(1);
                if second.len() > 0 && second[0] == 34 {
                    match quoted_prefix(second) {
                        Some((b, _)) => common_path(a, b),
                        None => None,
                    }
                } else {
                    common_path(a, second)
                }
            },
        }
    } else {
        match first_occurrence(rest, quoted_boundary(), 0) {
            Some(pos) => match quoted_prefix(rest.skip(pos + 1)) {
                Some((b, _)) => common_path(rest.take(pos), b),
                None => None,
            },
            None => split_path(rest, 0),
        }
    }
}

/// Parse the remainder of a `diff --git ` line into the one path that it names.
/// `None` if the line cannot be understood: callers treat that as a parse error,
/// never a skip.
pub fn parse_diff_git_path(rest: &[u8]) -> (r: Option<Vec<u8>>)
    ensures
        match r {
            Some(p) => header_path(rest@) == Some(p@),
            None => header_path(rest@) is None,
        },
{
    if rest.len() > 0 && rest[0] == 34 {
        let (a, after) = match unquote_c(rest) {
            Some(pair) => pair,
            None => {
                return None;
            },
        };
        if after.len() == 0 || after[0] != 32 {
            return None;
        }
        let second = vstd::slice::slice_subrange(after, 1, after.len());
        assert(second@ =~= after@.skip(1));
        if second.len() > 0 && second[0] == 34 {
            return match unquote_c(second) {
                Some((b, _)) => strip_ab(&a, &b),
                None => None,
            };
        }
        return strip_ab(&a, second);
    }
    let quoted_mark: Vec<u8> = vec![32u8, 34u8, 98u8, 47u8];
    let mark: Vec<u8> = vec![32u8, 98u8, 47u8];
    assert(quoted_mark@ =~= quoted_boundary());
    assert(mark@ =~= boundary());
    proof {
        lemma_first_occurrence(rest@, quoted_boundary(), 0);
    }
    if let Some(pos) = find_bytes(rest, &quoted_mark) {
        assert(pos + 4 <= rest@.len());
        let a = vstd::slice::slice_subrange(rest, 0, pos);
        let tail = vstd::slice::slice_subrange(rest, pos + 1, rest.len());
        assert(a@ =~= rest@.take(pos as int));
        assert(tail@ =~= rest@.skip(pos + 1));
        return match unquote_c(tail) {
            Some((b, _)) => strip_ab(a, &b),
            None => None,
        };
    }
    let mut idx: usize = 0;
    while idx < rest.len()
        invariant
            idx <= rest@.len(),
            mark@ == boundary(),
            header_path(rest@) == split_path(rest@, idx as int),
        ensures
            header_path(rest@) is None,
        decreases rest@.len() - idx,
    {
        let tail = vstd::slice::slice_subrange(rest, idx, rest.len());
        let found = find_bytes(tail, &mark);
        proof {
            lemma_first_occurrence(tail@, boundary(), 0);
            assert forall|j: int| idx <= j implies #[trigger] occurs_at(rest@, boundary(), j)
                == occurs_at(tail@, boundary(), j - idx) by {
                if j + 3 <= rest@.len() {
                    assert(tail@.subrange(j - idx, j - idx + 3) =~= rest@.subrange(j, j + 3));
                }
            }
        }
        match found {
            None => {
                proof {
                    lemma_skip_to(rest@, idx as int, rest@.len() as int);
                }
                break;
            },
            Some(off) => {
                assert(off + 3 <= tail@.len());
                let pos: usize = idx + off;
                proof {
                    lemma_skip_to(rest@, idx as int, pos as int);
                }
                let a = vstd::slice::slice_subrange(rest, 0, pos);
                let b = vstd::slice::slice_subrange(rest, pos + 1, rest.len());
                assert(a@ =~= rest@.take(pos as int));
                assert(b@ =~= rest@.skip(pos + 1));
                if let Some(p) = strip_ab(a, b) {
                    return Some(p);
                }
                idx = pos + 1;
            },
        }
    }
    None
}

/// Places without a boundary change nothing.
proof fn lemma_skip_to(rest: Seq<u8>, from: int, to: int)
    requires
        0 <= from <= to <= rest.len(),
        forall|j: int| from <= j < to ==> !#[trigger] occurs_at(rest, boundary(), j),
    ensures
        split_path(rest, from) == split_path(rest, to),
    decreases to - from,
{
    if from < to {
        assert(!occurs_at(rest, boundary(), from));
        lemma_skip_to(rest, from + 1, to);
    }
}

/// A header that names one path on both sides yields that path, whatever the path
/// holds, as long as no quoted half seems to start in it.
pub proof fn law_header_yields_its_path(p: Seq<u8>)
    requires
        first_occurrence(
            seq![97u8, 47u8] + p + boundary() + p,
            quoted_boundary(),
            0,
        ) is None,
    ensures
        header_path(seq![97u8, 47u8] + p + boundary() + p) == Some(p),
{
    let h = seq![97u8, 47u8] + p + boundary() + p;
    let m = p.len() as int + 2;
    assert(h[0] == 97);
    assert(h.subrange(m, m + 3) =~= boundary());
    assert(occurs_at(h, boundary(), m));
    let a = h.take(m);
    let b = h.skip(m + 1);
    assert(a =~= seq![97u8, 47u8] + p);
    assert(b =~= seq![98u8, 47u8] + p);
    assert(a.skip(2) =~= p);
    assert(b.skip(2) =~= p);
    assert(common_path(a, b) == Some(p));
    lemma_only_middle(h, 0, m);
}

/// Halves that agree are equally long, so only the middle can be the split.
proof fn lemma_only_middle(h: Seq<u8>, from: int, m: int)
    requires
        0 <= from <= m,
        h.len() == 2 * m + 1,
        occurs_at(h, boundary(), m),
        common_path(h.take(m), h.skip(m + 1)) is Some,
    ensures
        split_path(h, from) == common_path(h.take(m), h.skip(m + 1)),
    decreases m - from,
{
    if from < m {
        if common_path(h.take(from), h.skip(from + 1)) is Some {
            assert(h.take(from).skip(2).len() == h.skip(from + 1).skip(2).len());
        }
        lemma_only_middle(h, from + 1, m);
    }
}

/// Whether bytes spell a byte inside quotes: the byte itself, a letter behind a backslash,
/// or three octal digits behind one.
pub open spec fn is_spelling(e: Seq<u8>, b: u8) -> bool {
    ||| e.len() == 1 && e[0] == b && b as char != '"' && b as char != '\\'
    ||| e.len() == 2 && e[0] as char == '\\' && match b {
        7 => e[1] as char == 'a',
        8 => e[1] as char == 'b',
        9 => e[1] as char == 't',
        10 => e[1] as char == 'n',
        11 => e[1] as char == 'v',
        12 => e[1] as char == 'f',
        13 => e[1] as char == 'r',
        34 => e[1] as char == '"',
        92 => e[1] as char == '\\',
        _ => false,
    }
    ||| e.len() == 4 && e[0] as char == '\\' && 48 <= e[1] <= 51 && 48 <= e[2] <= 55 && 48 <= e[3]
        <= 55 && b == 64 * (e[1] - 48) + 8 * (e[2] - 48) + (e[3] - 48)
}

/// Bytes as they are spelled, one after the other.
pub open spec fn spelled(es: Seq<Seq<u8>>) -> Seq<u8>
    decreases es.len(),
{
    if es.len() == 0 {
        Seq::empty()
    } else {
        es[0] + spelled(es.drop_first())
    }
}

proof fn lemma_spelled(s: Seq<u8>, i: int, es: Seq<Seq<u8>>, p: Seq<u8>, rest: Seq<u8>)
    requires
        0 <= i <= s.len(),
        es.len() == p.len(),
        forall|k: int| 0 <= k < p.len() ==> is_spelling(#[trigger] es[k], p[k]),
        s.skip(i) == spelled(es) + seq![34u8] + rest,
    ensures
        unquoted(s, i) == Some((p, s.len() - rest.len())),
    decreases es.len(),
{
    let tail = s.skip(i);
    assert(tail.len() == s.len() - i);
    if es.len() == 0 {
        assert(tail[0] == 34);
        assert(s[i] == tail[0]);
        assert(p =~= Seq::<u8>::empty());
        assert(tail =~= seq![34u8] + rest);
    } else {
        let e = es[0];
        let more = es.drop_first();
        let q = p.drop_first();
        assert(is_spelling(es[0], p[0]));
        assert forall|k: int| 0 <= k < q.len() implies is_spelling(#[trigger] more[k], q[k]) by {
            assert(is_spelling(es[k + 1], p[k + 1]));
        }
        let n = e.len() as int;
        assert(spelled(es) == e + spelled(more));
        assert(s.skip(i + n) =~= spelled(more) + seq![34u8] + rest) by {
            assert(tail.skip(n) =~= spelled(more) + seq![34u8] + rest);
            assert(s.skip(i + n) =~= tail.skip(n));
        }
        lemma_spelled(s, i + n, more, q, rest);
        assert forall|k: int| 0 <= k < n implies s[i + k] == e[k] by {
            assert(tail[k] == e[k]);
        }
        assert(s[i] == e[0]);
        assert(seq![p[0]] + q =~= p);
        if n == 2 {
            assert(s[i + 1] == e[1]);
        }
        if n == 4 {
            assert(s[i + 1] == e[1] && s[i + 2] == e[2] && s[i + 3] == e[3]);
            assert(octal_len(s, i + 1) == 3);
            reveal_with_fuel(octal_value, 4);
            assert(octal_value(s, i + 1, 3) == 64 * (e[1] - 48) + 8 * (e[2] - 48) + (e[3] - 48));
        }
    }
}

/// A quoted string is read as the bytes that it spells, and what stands behind it is left.
pub proof fn law_a_quoted_string_is_what_it_spells(
    s: &[u8],
    es: Seq<Seq<u8>>,
    p: Seq<u8>,
    rest: Seq<u8>,
    r: Option<(Vec<u8>, &[u8])>,
)
    requires
        call_ensures(unquote_c, (s,), r),
        es.len() == p.len(),
        forall|k: int| 0 <= k < p.len() ==> is_spelling(#[trigger] es[k], p[k]),
        s@ == seq![34u8] + spelled(es) + seq![34u8] + rest,
    ensures
        r matches Some((bytes, left)) && bytes@ == p && left@ == rest,
{
    assert(s@.skip(1) =~= spelled(es) + seq![34u8] + rest);
    lemma_spelled(s@, 1, es, p, rest);
    assert(s@.skip(s@.len() - rest.len()) =~= rest);
}

/// A header that names one path on both sides is read as that path, whatever the path
/// holds, as long as no quoted half seems to start in it.
pub proof fn law_a_header_is_read_as_its_path(rest: &[u8], p: Seq<u8>, r: Option<Vec<u8>>)
    requires
        call_ensures(parse_diff_git_path, (rest,), r),
        rest@ == seq![97u8, 47u8] + p + seq![32u8, 98u8, 47u8] + p,
        first_occurrence(rest@, seq![32u8, 34u8, 98u8, 47u8], 0) is None,
    ensures
        r matches Some(path) && path@ == p,
{
    law_header_yields_its_path(p);
}

} // verus!
