//! Characters, bytes and decimal numbers: the small vocabulary that the rest of
//! the library states its contracts in.
use vstd::prelude::*;
use vstd::string::*;

use crate::seqs::{join, law_split_undoes_join, split, texts};

verus! {

/// `String::push` appends one character.
pub assume_specification[ String::push ](s: &mut String, c: char)
    ensures
        final(s)@ == old(s)@.push(c),
;

/// Append a text.
pub fn push_str(s: &mut String, t: &str)
    ensures
        final(s)@ == old(s)@ + t@,
{
    s.append(t);
}

/// The characters of a string, as a vector.
pub fn chars_of(s: &str) -> (r: Vec<char>)
    ensures
        r@ == s@,
{
    let mut out: Vec<char> = Vec::new();
    for c in iter: s.chars()
        invariant
            iter.seq() == s@,
            out@ == s@.take(iter.index()),
    {
        out.push(c);
        assert(s@.take(iter.index() + 1) =~= s@.take(iter.index()).push(c));
    }
    assert(s@.take(s@.len() as int) =~= s@);
    out
}

/// The string that a run of characters spells.
pub fn string_of(cs: &[char]) -> (r: String)
    ensures
        r@ == cs@,
{
    let mut out = String::new();
    for i in 0..cs.len()
        invariant
            out@ == cs@.take(i as int),
    {
        out.push(cs[i]);
        assert(cs@.take(i + 1) =~= cs@.take(i as int).push(cs@[i as int]));
    }
    assert(cs@.take(cs@.len() as int) =~= cs@);
    out
}

/// Whether two strings spell the same text.
pub fn str_eq(a: &str, b: &str) -> (r: bool)
    ensures
        r == (a@ == b@),
{
    let x = chars_of(a);
    let y = chars_of(b);
    if x.len() != y.len() {
        return false;
    }
    for i in 0..x.len()
        invariant
            x@.len() == y@.len(),
            x@ == a@,
            y@ == b@,
            forall|j: int| 0 <= j < i ==> x@[j] == y@[j],
    {
        if x[i] != y[i] {
            return false;
        }
    }
    assert(x@ =~= y@);
    true
}

/// Whether a list of strings holds a text.
pub fn contains_text(v: &Vec<String>, s: &str) -> (r: bool)
    ensures
        r == texts(v@).contains(s@),
{
    for i in 0..v.len()
        invariant
            forall|j: int| 0 <= j < i ==> texts(v@)[j] != s@,
    {
        if str_eq(&v[i], s) {
            assert(texts(v@)[i as int] == s@);
            return true;
        }
    }
    false
}

/// A copy of a list of strings.
pub fn copy_texts(v: &Vec<String>) -> (r: Vec<String>)
    ensures
        texts(r@) == texts(v@),
        r@ == v@,
{
    let mut out: Vec<String> = Vec::new();
    for i in 0..v.len()
        invariant
            out@ == v@.take(i as int),
    {
        out.push(v[i].clone());
        assert(out@ =~= v@.take(i + 1));
    }
    assert(v@.take(v@.len() as int) =~= v@);
    out
}

/// The ten decimal digits.
pub open spec fn digit_char(d: int) -> char {
    (('0' as int) + d) as char
}

/// A number in decimal, most significant digit first, no leading zeros.
pub open spec fn decimal(n: nat) -> Seq<char>
    decreases n,
{
    if n < 10 {
        seq![digit_char(n as int)]
    } else {
        decimal(n / 10).push(digit_char((n % 10) as int))
    }
}

fn digit_of(d: u64) -> (c: char)
    requires
        d < 10,
    ensures
        c == digit_char(d as int),
{
    match d {
        0 => '0',
        1 => '1',
        2 => '2',
        3 => '3',
        4 => '4',
        5 => '5',
        6 => '6',
        7 => '7',
        8 => '8',
        _ => '9',
    }
}

/// Append a number in decimal.
pub fn push_decimal(s: &mut String, n: u64)
    ensures
        final(s)@ == old(s)@ + decimal(n as nat),
    decreases n,
{
    if n >= 10 {
        push_decimal(s, n / 10);
    }
    s.push(digit_of(n % 10));
    proof {
        if n >= 10 {
            assert(old(s)@ + decimal(n as nat) =~= (old(s)@ + decimal((n / 10) as nat)).push(
                digit_char((n % 10) as int),
            ));
        } else {
            assert(old(s)@ + decimal(n as nat) =~= old(s)@.push(digit_char(n as int)));
        }
    }
}

/// Whether a character is an ASCII decimal digit.
pub open spec fn is_digit(c: char) -> bool {
    '0' <= c && c <= '9'
}

/// The number that a run of decimal digits spells.
pub open spec fn digits_value(s: Seq<char>) -> nat
    decreases s.len(),
{
    if s.len() == 0 {
        0
    } else {
        10 * digits_value(s.drop_last()) + ((s.last() as int) - ('0' as int)) as nat
    }
}

/// Whether every character is a decimal digit and there is at least one.
pub open spec fn is_digits(s: Seq<char>) -> bool {
    s.len() > 0 && forall|i: int| 0 <= i < s.len() ==> is_digit(#[trigger] s[i])
}

/// The number a text denotes: an optional `+`, then decimal digits, no larger
/// than `max`.
pub open spec fn unsigned_value(s: Seq<char>, max: nat) -> Option<nat> {
    let d = if s.len() > 0 && s[0] == '+' {
        s.drop_first()
    } else {
        s
    };
    if is_digits(d) && digits_value(d) <= max {
        Some(digits_value(d))
    } else {
        None
    }
}

proof fn lemma_value_grows(s: Seq<char>, i: int)
    requires
        is_digits(s),
        0 <= i <= s.len(),
    ensures
        digits_value(s.take(i)) <= digits_value(s),
    decreases s.len(),
{
    if i == s.len() {
        assert(s.take(i) =~= s);
    } else if s.len() == 1 {
        assert(s.take(i) =~= Seq::<char>::empty());
    } else {
        assert(is_digit(s[s.len() - 1]));
        let t = s.drop_last();
        assert(forall|j: int| 0 <= j < t.len() ==> t[j] == s[j]);
        lemma_value_grows(t, i);
        assert(t.take(i) =~= s.take(i));
    }
}

/// Read an unsigned number, as `unsigned_value` says.
pub fn parse_unsigned(s: &str, max: u64) -> (r: Option<u64>)
    ensures
        match r {
            Some(n) => unsigned_value(s@, max as nat) == Some(n as nat),
            None => unsigned_value(s@, max as nat) is None,
        },
{
    let cs = chars_of(s);
    let start: usize = if cs.len() > 0 && cs[0] == '+' {
        1
    } else {
        0
    };
    let ghost d = cs@.skip(start as int);
    proof {
        assert(d =~= (if s@.len() > 0 && s@[0] == '+' {
            s@.drop_first()
        } else {
            s@
        }));
    }
    if cs.len() == start {
        return None;
    }
    let mut v: u64 = 0;
    for i in start..cs.len()
        invariant
            start <= cs@.len(),
            d == cs@.skip(start as int),
            d.len() > 0,
            cs@ == s@,
            unsigned_value(s@, max as nat) == (if is_digits(d) && digits_value(d) <= max {
                Some(digits_value(d))
            } else {
                None
            }),
            v == digits_value(d.take(i - start)),
            v <= max,
            forall|j: int| 0 <= j < i - start ==> is_digit(d[j]),
    {
        let c = cs[i];
        assert(d[i - start] == c);
        if !(c >= '0' && c <= '9') {
            assert(!is_digit(d[i - start]));
            return None;
        }
        let digit: u128 = (c as u32 - '0' as u32) as u128;
        let next: u128 = v as u128 * 10 + digit;
        proof {
            assert(d.take(i - start + 1).drop_last() =~= d.take(i - start));
            assert(next == digits_value(d.take(i - start + 1)));
        }
        if next > max as u128 {
            proof {
                if is_digits(d) {
                    lemma_value_grows(d, i - start + 1);
                }
            }
            return None;
        }
        v = next as u64;
    }
    assert(d.take(d.len() as int) =~= d);
    Some(v)
}

/// Decimal is read back as the number that was written.
pub proof fn law_decimal_round_trip(n: nat, max: nat)
    requires
        n <= max,
    ensures
        is_digits(decimal(n)),
        unsigned_value(decimal(n), max) == Some(n),
{
    lemma_decimal_value(n);
}

proof fn lemma_decimal_value(n: nat)
    ensures
        is_digits(decimal(n)),
        digits_value(decimal(n)) == n,
    decreases n,
{
    if n < 10 {
        assert(decimal(n).drop_last() =~= Seq::<char>::empty());
        assert(digits_value(decimal(n).drop_last()) == 0);
    } else {
        lemma_decimal_value(n / 10);
        let d = decimal(n);
        assert(d.drop_last() =~= decimal(n / 10));
        assert forall|i: int| 0 <= i < d.len() implies is_digit(#[trigger] d[i]) by {
            if i < d.len() - 1 {
                assert(d[i] == decimal(n / 10)[i]);
            }
        }
    }
}

/// Whether `pat` stands in `s` at place `i`.
pub open spec fn occurs_at<T>(s: Seq<T>, pat: Seq<T>, i: int) -> bool {
    0 <= i && i + pat.len() <= s.len() && s.subrange(i, i + pat.len()) == pat
}

/// The text with every occurrence of `pat` replaced, from left to right, never
/// overlapping.
pub open spec fn replaced(s: Seq<char>, pat: Seq<char>, with: Seq<char>) -> Seq<char>
    decreases s.len(),
{
    if s.len() == 0 || pat.len() == 0 {
        s
    } else if occurs_at(s, pat, 0) {
        with + replaced(s.skip(pat.len() as int), pat, with)
    } else {
        seq![s[0]] + replaced(s.drop_first(), pat, with)
    }
}

/// Whether `pat` stands in `cs` at place `i`.
pub fn matches_at(cs: &[char], pat: &[char], i: usize) -> (r: bool)
    requires
        i <= cs@.len(),
    ensures
        r == occurs_at(cs@, pat@, i as int),
{
    if pat.len() > cs.len() - i {
        return false;
    }
    for j in 0..pat.len()
        invariant
            i + pat@.len() <= cs.len(),
            forall|k: int| 0 <= k < j ==> cs@[i + k] == pat@[k],
    {
        if cs[i + j] != pat[j] {
            assert(cs@.subrange(i as int, i + pat@.len())[j as int] != pat@[j as int]);
            return false;
        }
    }
    assert(cs@.subrange(i as int, i + pat@.len()) =~= pat@);
    true
}

/// Replace every occurrence of a pattern.
pub fn replace(s: &str, pat: &str, with: &str) -> (r: String)
    requires
        pat@.len() > 0,
    ensures
        r@ == replaced(s@, pat@, with@),
{
    let cs = chars_of(s);
    let ps = chars_of(pat);
    let mut out = String::new();
    let mut i: usize = 0;
    assert(cs@.skip(0) =~= s@);
    while i < cs.len()
        invariant
            cs@ == s@,
            ps@ == pat@,
            pat@.len() > 0,
            i <= cs@.len(),
            out@ + replaced(s@.skip(i as int), pat@, with@) == replaced(s@, pat@, with@),
        decreases cs@.len() - i,
    {
        let ghost rest = s@.skip(i as int);
        let ghost had = out@;
        proof {
            if i + pat@.len() <= s@.len() {
                assert(rest.subrange(0, pat@.len() as int) =~= s@.subrange(
                    i as int,
                    i + pat@.len(),
                ));
            }
            assert(occurs_at(rest, pat@, 0) == occurs_at(s@, pat@, i as int));
        }
        if matches_at(cs.as_slice(), ps.as_slice(), i) {
            push_str(&mut out, with);
            proof {
                assert(rest.skip(pat@.len() as int) =~= s@.skip(i + pat@.len()));
                assert(had + (with@ + replaced(s@.skip(i + pat@.len()), pat@, with@)) =~= (had
                    + with@) + replaced(s@.skip(i + pat@.len()), pat@, with@));
            }
            i = i + ps.len();
        } else {
            out.push(cs[i]);
            proof {
                assert(rest.drop_first() =~= s@.skip(i + 1));
                assert(had + (seq![rest[0]] + replaced(s@.skip(i + 1), pat@, with@)) =~= had.push(
                    rest[0],
                ) + replaced(s@.skip(i + 1), pat@, with@));
            }
            i = i + 1;
        }
    }
    assert(s@.skip(i as int) =~= Seq::<char>::empty());
    assert(out@ + Seq::<char>::empty() =~= out@);
    out
}

/// How a text is shown in quotes, with what cannot be printed escaped.
pub uninterp spec fn debug_text(s: Seq<char>) -> Seq<char>;

/// The `Debug` form that `format!` gives a string slice: a function of the text
/// alone.
#[verifier::external_body]
pub(crate) fn quoted(s: &str) -> (r: String)
    ensures
        r@ == debug_text(s@),
{
    format!("{s:?}")
}

/// The text that bytes spell, with what is not UTF-8 replaced.
pub uninterp spec fn lossy_text(bytes: Seq<u8>) -> Seq<char>;

/// `String::from_utf8_lossy`: a function of the bytes alone, and the very text
/// where the bytes are UTF-8.
#[verifier::external_body]
pub(crate) fn lossy(bytes: &[u8]) -> (r: String)
    ensures
        r@ == lossy_text(bytes@),
        vstd::utf8::valid_utf8(bytes@) ==> r@ == vstd::utf8::decode_utf8(bytes@),
{
    String::from_utf8_lossy(bytes).into_owned()
}

/// The first place from `from` on where `pat` stands in `s`.
pub open spec fn first_occurrence<T>(s: Seq<T>, pat: Seq<T>, from: int) -> Option<int>
    decreases s.len() + 1 - from,
{
    if from < 0 || from + pat.len() > s.len() {
        None
    } else if occurs_at(s, pat, from) {
        Some(from)
    } else {
        first_occurrence(s, pat, from + 1)
    }
}

/// The first occurrence is one, and none stands before it.
pub proof fn lemma_first_occurrence<T>(s: Seq<T>, pat: Seq<T>, from: int)
    requires
        0 <= from,
    ensures
        match first_occurrence(s, pat, from) {
            Some(i) => from <= i && occurs_at(s, pat, i) && i + pat.len() <= s.len() && forall|k: int|
                from <= k < i ==> !#[trigger] occurs_at(s, pat, k),
            None => forall|k: int| from <= k ==> !#[trigger] occurs_at(s, pat, k),
        },
    decreases s.len() + 1 - from,
{
    if from + pat.len() <= s.len() && !occurs_at(s, pat, from) {
        lemma_first_occurrence(s, pat, from + 1);
    }
}

/// An occurrence with none before it is the first.
pub proof fn lemma_first_is<T>(s: Seq<T>, pat: Seq<T>, from: int, n: int)
    requires
        0 <= from <= n,
        occurs_at(s, pat, n),
        forall|k: int| from <= k < n ==> !#[trigger] occurs_at(s, pat, k),
    ensures
        first_occurrence(s, pat, from) == Some(n),
    decreases n - from,
{
    if from < n {
        assert(!occurs_at(s, pat, from));
        lemma_first_is(s, pat, from + 1, n);
    }
}

/// Find the first place where a text stands.
pub fn find_text(cs: &[char], pat: &str) -> (r: Option<usize>)
    ensures
        match r {
            Some(i) => first_occurrence(cs@, pat@, 0) == Some(i as int),
            None => first_occurrence(cs@, pat@, 0) is None,
        },
{
    let ps = chars_of(pat);
    let mut i: usize = 0;
    while i <= cs.len() && ps.len() <= cs.len() - i
        invariant
            ps@ == pat@,
            first_occurrence(cs@, pat@, 0) == first_occurrence(cs@, pat@, i as int),
            i <= cs@.len(),
        decreases cs@.len() + 1 - i,
    {
        if matches_at(cs, ps.as_slice(), i) {
            return Some(i);
        }
        if i == cs.len() {
            assert(first_occurrence(cs@, pat@, i + 1) is None);
            return None;
        }
        i = i + 1;
    }
    None
}

/// Bytes as characters, one for one.
pub open spec fn latin_text(bytes: Seq<u8>) -> Seq<char> {
    Seq::new(bytes.len(), |i: int| bytes[i] as char)
}

/// Bytes as characters, one for one.
pub fn latin_string(bytes: &[u8]) -> (r: String)
    ensures
        r@ == latin_text(bytes@),
{
    let mut out = String::new();
    for i in 0..bytes.len()
        invariant
            out@ == latin_text(bytes@).take(i as int),
    {
        out.push(bytes[i] as char);
        assert(out@ =~= latin_text(bytes@).take(i + 1));
    }
    assert(latin_text(bytes@).take(bytes@.len() as int) =~= latin_text(bytes@));
    out
}

/// Cut a text at every separator.
pub fn split_text(s: &str, sep: char) -> (r: Vec<String>)
    ensures
        texts(r@) == split(s@, sep),
        r@.len() >= 1,
{
    let cs = chars_of(s);
    let mut out: Vec<String> = Vec::new();
    let mut cur = String::new();
    assert(texts(out@).push(cur@) =~= split(cs@.take(0), sep));
    for i in 0..cs.len()
        invariant
            texts(out@).push(cur@) == split(cs@.take(i as int), sep),
    {
        let c = cs[i];
        let ghost before = split(cs@.take(i as int), sep);
        assert(cs@.take(i + 1).drop_last() =~= cs@.take(i as int));
        let ghost pieces = texts(out@);
        if c == sep {
            out.push(cur);
            cur = String::new();
            assert(texts(out@) =~= before);
            assert(texts(out@).push(cur@) =~= before.push(Seq::<char>::empty()));
        } else {
            assert(before.drop_last() =~= pieces);
            assert(before.last() == cur@);
            cur.push(c);
        }
    }
    assert(cs@.take(cs@.len() as int) =~= cs@);
    let ghost pieces = texts(out@);
    out.push(cur);
    assert(texts(out@) =~= pieces.push(cur@));
    out
}

/// A line without the carriage return at its end.
pub open spec fn chop_return(s: Seq<char>) -> Seq<char> {
    if s.len() > 0 && s.last() == '\r' {
        s.drop_last()
    } else {
        s
    }
}

/// The lines of a text: what stands before each newline, without a carriage return
/// right before it, and what follows the last newline if there is anything.
pub open spec fn lines(s: Seq<char>) -> Seq<Seq<char>> {
    let pieces = split(s, '\n');
    let ended = Seq::new((pieces.len() - 1) as nat, |i: int| chop_return(pieces[i]));
    if pieces.last().len() == 0 {
        ended
    } else {
        ended.push(pieces.last())
    }
}

/// The lines of a text.
pub fn lines_of(s: &str) -> (r: Vec<String>)
    ensures
        texts(r@) == lines(s@),
{
    let pieces = split_text(s, '\n');
    let ghost ps = split(s@, '\n');
    let n = pieces.len();
    let mut out: Vec<String> = Vec::new();
    for i in 0..n - 1
        invariant
            n == pieces@.len(),
            n >= 1,
            ps == texts(pieces@),
            texts(out@) == Seq::new(i as nat, |k: int| chop_return(ps[k])),
    {
        let mut cs = chars_of(&pieces[i]);
        assert(ps[i as int] == cs@);
        if cs.len() > 0 && cs[cs.len() - 1] == '\r' {
            let last = cs.pop();
        }
        let ghost had = texts(out@);
        out.push(string_of(cs.as_slice()));
        assert(texts(out@) =~= had.push(chop_return(ps[i as int])));
        assert(texts(out@) =~= Seq::new((i + 1) as nat, |k: int| chop_return(ps[k])));
    }
    let ghost ended = Seq::new((ps.len() - 1) as nat, |k: int| chop_return(ps[k]));
    let cs = chars_of(&pieces[n - 1]);
    assert(ps.last() == cs@);
    if cs.len() > 0 {
        out.push(pieces[n - 1].clone());
        assert(texts(out@) =~= ended.push(ps.last()));
    }
    out
}

/// A whole number as it is written.
pub open spec fn integer_text(n: int) -> Seq<char> {
    if n < 0 {
        "-"@ + decimal((-n) as nat)
    } else {
        decimal(n as nat)
    }
}

/// A whole number as it is written.
pub fn integer_string(n: i64) -> (r: String)
    ensures
        r@ == integer_text(n as int),
{
    if n < 0 {
        let mut out = "-".to_owned();
        let m: i128 = -(n as i128);
        push_decimal(&mut out, m as u64);
        out
    } else {
        let mut out = String::new();
        push_decimal(&mut out, n as u64);
        assert(out@ =~= decimal(n as nat));
        out
    }
}

/// Whether a character is white space.
pub open spec fn is_white(c: char) -> bool {
    ||| '\u{9}' <= c <= '\u{d}'
    ||| c == ' '
    ||| c == '\u{85}'
    ||| c == '\u{a0}'
    ||| c == '\u{1680}'
    ||| '\u{2000}' <= c <= '\u{200a}'
    ||| c == '\u{2028}'
    ||| c == '\u{2029}'
    ||| c == '\u{202f}'
    ||| c == '\u{205f}'
    ||| c == '\u{3000}'
}

/// Whether a character is white space.
pub fn white(c: char) -> (r: bool)
    ensures
        r == is_white(c),
{
    ('\u{9}' <= c && c <= '\u{d}') || c == ' ' || c == '\u{85}' || c == '\u{a0}' || c
        == '\u{1680}' || ('\u{2000}' <= c && c <= '\u{200a}') || c == '\u{2028}' || c
        == '\u{2029}' || c == '\u{202f}' || c == '\u{205f}' || c == '\u{3000}'
}

/// A text without the white space at its start.
pub open spec fn trim_start(s: Seq<char>) -> Seq<char>
    decreases s.len(),
{
    if s.len() > 0 && is_white(s[0]) {
        trim_start(s.drop_first())
    } else {
        s
    }
}

/// A text without the white space at its end.
pub open spec fn trim_end(s: Seq<char>) -> Seq<char>
    decreases s.len(),
{
    if s.len() > 0 && is_white(s.last()) {
        trim_end(s.drop_last())
    } else {
        s
    }
}

/// A text without the white space at its ends.
pub open spec fn trim(s: Seq<char>) -> Seq<char> {
    trim_end(trim_start(s))
}

/// A text without the white space at its ends.
pub fn trimmed_text(s: &str) -> (r: String)
    ensures
        r@ == trim(s@),
{
    let cs = chars_of(s);
    let n = cs.len();
    let mut start: usize = 0;
    assert(cs@.skip(0) =~= cs@);
    while start < n && white(cs[start])
        invariant
            n == cs@.len(),
            start <= n,
            trim_start(s@) == trim_start(cs@.skip(start as int)),
        decreases n - start,
    {
        assert(cs@.skip(start as int).drop_first() =~= cs@.skip(start + 1));
        start = start + 1;
    }
    let mut rest: Vec<char> = Vec::new();
    for i in start..n
        invariant
            n == cs@.len(),
            start <= n,
            rest@ == cs@.subrange(start as int, i as int),
    {
        rest.push(cs[i]);
        assert(rest@ =~= cs@.subrange(start as int, i + 1));
    }
    assert(rest@ =~= cs@.skip(start as int));
    while rest.len() > 0 && white(rest[rest.len() - 1])
        invariant
            trim(s@) == trim_end(rest@),
        decreases rest@.len(),
    {
        let last = rest.pop();
    }
    string_of(rest.as_slice())
}

/// Texts with a separator between each two.
pub open spec fn join_with(parts: Seq<Seq<char>>, sep: Seq<char>) -> Seq<char>
    decreases parts.len(),
{
    if parts.len() == 0 {
        Seq::empty()
    } else if parts.len() == 1 {
        parts[0]
    } else {
        join_with(parts.drop_last(), sep) + sep + parts.last()
    }
}

/// Texts with a separator between each two.
pub fn join_strings(parts: &Vec<String>, sep: &str) -> (r: String)
    ensures
        r@ == join_with(texts(parts@), sep@),
{
    let ghost all = texts(parts@);
    let mut out = String::new();
    assert(out@ =~= join_with(all.take(0), sep@));
    for i in 0..parts.len()
        invariant
            all == texts(parts@),
            out@ == join_with(all.take(i as int), sep@),
    {
        let ghost now = all.take(i + 1);
        assert(now.drop_last() =~= all.take(i as int));
        if i > 0 {
            push_str(&mut out, sep);
            push_str(&mut out, &parts[i]);
        } else {
            push_str(&mut out, &parts[i]);
            assert(out@ =~= now[0]);
        }
    }
    assert(all.take(all.len() as int) =~= all);
    out
}

/// A run of spaces.
pub open spec fn spaces(n: nat) -> Seq<char> {
    Seq::new(n, |i: int| ' ')
}

/// A text filled up with spaces to a width.
pub open spec fn padded(s: Seq<char>, width: nat) -> Seq<char> {
    if s.len() >= width {
        s
    } else {
        s + spaces((width - s.len()) as nat)
    }
}

/// A text filled up with spaces to a width.
pub fn pad(s: &str, width: usize) -> (r: String)
    ensures
        r@ == padded(s@, width as nat),
{
    let mut cs = chars_of(s);
    let n = cs.len();
    while cs.len() < width
        invariant
            n == s@.len(),
            n <= cs@.len(),
            n <= width ==> cs@.len() <= width,
            n >= width ==> cs@.len() == n,
            cs@ == s@ + spaces((cs@.len() - n) as nat),
        decreases width - cs@.len(),
    {
        cs.push(' ');
        assert(cs@ =~= s@ + spaces((cs@.len() - n) as nat));
    }
    assert(s@ + spaces(0) =~= s@);
    string_of(cs.as_slice())
}

/// Lines written one below the other, each ended by a newline, are read back as they were.
pub proof fn law_written_lines_are_read_back(text: &str, parts: Seq<Seq<char>>, r: Vec<String>)
    requires
        call_ensures(lines_of, (text,), r),
        text@ == join(parts.push(Seq::<char>::empty()), '\n'),
        forall|i: int|
            0 <= i < parts.len() ==> !(#[trigger] parts[i]).contains('\n') && (parts[i].len() > 0
                ==> parts[i].last() != '\r'),
    ensures
        r@.len() == parts.len(),
        forall|i: int| 0 <= i < parts.len() ==> (#[trigger] r@[i])@ == parts[i],
{
    let all = parts.push(Seq::<char>::empty());
    assert forall|i: int| 0 <= i < all.len() implies !(#[trigger] all[i]).contains('\n') by {
        if i < parts.len() {
            assert(all[i] == parts[i]);
        }
    }
    law_split_undoes_join(all, '\n');
    assert(lines(text@) =~= parts) by {
        assert forall|i: int| 0 <= i < parts.len() implies chop_return(all[i]) == parts[i] by {
            assert(all[i] == parts[i]);
        }
    }
    assert(texts(r@).len() == r@.len());
    assert(forall|i: int| 0 <= i < r@.len() ==> texts(r@)[i] == (#[trigger] r@[i])@);
}

/// A number is written with the digits of its tens before its last digit, and without a
/// zero in front.
pub proof fn law_a_number_is_written_by_its_digits(n: nat)
    ensures
        n < 10 ==> decimal(n).len() == 1 && decimal(n)[0] as int == 48 + n,
        n >= 10 ==> decimal(n).len() == decimal(n / 10).len() + 1 && decimal(n).last() as int == 48
            + n % 10 && decimal(n).drop_last() == decimal(n / 10),
        n > 0 ==> decimal(n)[0] != '0',
    decreases n,
{
    if n >= 10 {
        law_a_number_is_written_by_its_digits(n / 10);
        assert(decimal(n).drop_last() =~= decimal(n / 10));
        assert(decimal(n)[0] == decimal(n / 10)[0]);
    }
}

/// What is trimmed off a text is white space at its ends, and all of it.
pub proof fn law_trimming_leaves_no_white_space_at_the_ends(s: &str, r: String)
    requires
        call_ensures(trimmed_text, (s,), r),
    ensures
        r@.len() > 0 ==> !is_white(r@[0]) && !is_white(r@.last()),
        exists|from: int, to: int|
            0 <= from <= to <= s@.len() && r@ == #[trigger] s@.subrange(from, to) && forall|i: int|
                (0 <= i < from || to <= i < s@.len()) ==> is_white(#[trigger] s@[i]),
        is_white(' ') && is_white('\t') && is_white('\n') && is_white('\r'),
{
    let a = lemma_trim_start(s@);
    let t = s@.skip(a);
    let b = lemma_trim_end(t);
    assert(t.take(b) =~= s@.subrange(a, a + b));
    assert forall|i: int| (0 <= i < a || a + b <= i < s@.len()) implies is_white(#[trigger] s@[i]) by {
        if i >= a + b {
            assert(t[i - a] == s@[i]);
        }
    }
    assert(r@ == s@.subrange(a, a + b));
    if r@.len() > 0 {
        assert(r@[0] == t[0]);
    }
}

proof fn lemma_trim_start(s: Seq<char>) -> (n: int)
    ensures
        0 <= n <= s.len(),
        trim_start(s) == s.skip(n),
        forall|i: int| 0 <= i < n ==> is_white(#[trigger] s[i]),
        n < s.len() ==> !is_white(s[n]),
    decreases s.len(),
{
    if s.len() > 0 && is_white(s[0]) {
        let m = lemma_trim_start(s.drop_first());
        assert(s.drop_first().skip(m) =~= s.skip(m + 1));
        assert forall|i: int| 0 <= i < m + 1 implies is_white(#[trigger] s[i]) by {
            if i > 0 {
                assert(s.drop_first()[i - 1] == s[i]);
            }
        }
        m + 1
    } else {
        assert(s.skip(0) =~= s);
        0
    }
}

proof fn lemma_trim_end(s: Seq<char>) -> (n: int)
    ensures
        0 <= n <= s.len(),
        trim_end(s) == s.take(n),
        forall|i: int| n <= i < s.len() ==> is_white(#[trigger] s[i]),
        n > 0 ==> !is_white(s[n - 1]),
    decreases s.len(),
{
    if s.len() > 0 && is_white(s.last()) {
        let m = lemma_trim_end(s.drop_last());
        assert(s.drop_last().take(m) =~= s.take(m));
        assert forall|i: int| m <= i < s.len() implies is_white(#[trigger] s[i]) by {
            if i < s.len() - 1 {
                assert(s.drop_last()[i] == s[i]);
            }
        }
        m
    } else {
        assert(s.take(s.len() as int) =~= s);
        s.len() as int
    }
}

/// A number that was written in decimal is read as itself, with or without a plus in
/// front, as far as it is within the bound; beyond it, it is refused.
pub proof fn law_a_written_number_is_read_as_itself(s: &str, n: nat, max: u64, r: Option<u64>)
    requires
        call_ensures(parse_unsigned, (s, max), r),
        s@ == decimal(n) || s@ == seq!['+'] + decimal(n),
    ensures
        n <= max ==> (r matches Some(v) && v == n),
        n > max ==> r is None,
{
    lemma_decimal_value(n);
    let d = decimal(n);
    assert(is_digit(d[0]));
    assert((seq!['+'] + d).drop_first() =~= d);
}

} // verus!
