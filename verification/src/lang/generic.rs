//! The generic line normaliser.
//!
//! Behaviour changes belong in a language plugin with its own id, so that shape
//! classes stay comparable over time.
use vstd::prelude::*;

use crate::seqs::copy_bytes;

verus! {

/// Quoted strings: double quotes, single quotes or backticks.
pub const STRINGS: &'static str = "(?-u)\"[^\"]*\"|'[^']*'|`[^`]*`";

/// Decimal numbers that stand alone.
pub const NUMBERS: &'static str = "(?-u)\\b\\d+\\b";

/// Identifiers of at least four characters.
pub const IDENTIFIERS: &'static str = "(?-u)[A-Za-z_][A-Za-z0-9_\\-]{3,}";

/// Runs of whitespace.
pub const SPACES: &'static str = "(?-u)\\s+";

/// Whether a pattern is one of the four that the normaliser uses.
pub open spec fn is_pattern(p: Seq<char>) -> bool {
    p == STRINGS@ || p == NUMBERS@ || p == IDENTIFIERS@ || p == SPACES@
}

/// A line with every match of a pattern replaced.
pub uninterp spec fn regex_replaced(pattern: Seq<char>, line: Seq<u8>, with: Seq<u8>) -> Seq<u8>;

/// `regex::bytes::Regex::replace_all`, of the pattern compiled by `Regex::new`:
/// the result depends on the pattern, the line and the replacement alone. The
/// four patterns all compile.
#[verifier::external_body]
fn replace_all(pattern: &str, line: &[u8], with: &[u8]) -> (r: Vec<u8>)
    requires
        is_pattern(pattern@),
    ensures
        r@ == regex_replaced(pattern@, line@, with@),
{
    let compiled = regex::bytes::Regex::new(pattern).unwrap();
    compiled.replace_all(line, with).into_owned()
}

/// Whether a byte is ASCII whitespace: space, tab, line feed, form feed or
/// carriage return.
pub open spec fn is_space(b: u8) -> bool {
    b == 32 || b == 9 || b == 10 || b == 12 || b == 13
}

/// A byte string without the whitespace at its ends.
pub open spec fn trimmed(s: Seq<u8>) -> Seq<u8>
    decreases s.len(),
{
    if s.len() == 0 {
        s
    } else if is_space(s[0]) {
        trimmed(s.drop_first())
    } else if is_space(s.last()) {
        trimmed(s.drop_last())
    } else {
        s
    }
}

/// The generic normal form: strings become `"S"`, numbers `N`, identifiers `I`,
/// whitespace a single space, and the ends are trimmed.
pub open spec fn normal_line(line: Seq<u8>) -> Seq<u8> {
    let a = regex_replaced(STRINGS@, line, seq![34u8, 83u8, 34u8]);
    let b = regex_replaced(NUMBERS@, a, seq![78u8]);
    let c = regex_replaced(IDENTIFIERS@, b, seq![73u8]);
    let d = regex_replaced(SPACES@, c, seq![32u8]);
    trimmed(d)
}

/// Normalise one line.
pub fn normalize_line(line: &[u8]) -> (r: Vec<u8>)
    ensures
        r@ == normal_line(line@),
{
    let string_mark: Vec<u8> = vec![34u8, 83u8, 34u8];
    let number_mark: Vec<u8> = vec![78u8];
    let ident_mark: Vec<u8> = vec![73u8];
    let space_mark: Vec<u8> = vec![32u8];
    assert(string_mark@ =~= seq![34u8, 83u8, 34u8]);
    assert(number_mark@ =~= seq![78u8]);
    assert(ident_mark@ =~= seq![73u8]);
    assert(space_mark@ =~= seq![32u8]);
    let a = replace_all(STRINGS, line, &string_mark);
    let b = replace_all(NUMBERS, &a, &number_mark);
    let c = replace_all(IDENTIFIERS, &b, &ident_mark);
    let d = replace_all(SPACES, &c, &space_mark);
    copy_bytes(trim_ascii(&d))
}

fn is_space_byte(b: u8) -> (r: bool)
    ensures
        r == is_space(b),
{
    b == 32 || b == 9 || b == 10 || b == 12 || b == 13
}

/// Drop the whitespace at both ends.
pub fn trim_ascii(s: &[u8]) -> (r: &[u8])
    ensures
        r@ == trimmed(s@),
{
    let mut start: usize = 0;
    assert(s@.subrange(0, s@.len() as int) =~= s@);
    while start < s.len() && is_space_byte(s[start])
        invariant
            start <= s@.len(),
            trimmed(s@) == trimmed(s@.subrange(start as int, s@.len() as int)),
        decreases s@.len() - start,
    {
        assert(s@.subrange(start as int, s@.len() as int).drop_first() =~= s@.subrange(
            start + 1,
            s@.len() as int,
        ));
        start = start + 1;
    }
    let mut end: usize = s.len();
    while end > start && is_space_byte(s[end - 1])
        invariant
            start <= end <= s@.len(),
            start < s@.len() ==> !is_space(s@[start as int]),
            trimmed(s@) == trimmed(s@.subrange(start as int, end as int)),
        decreases end,
    {
        assert(s@.subrange(start as int, end as int).drop_last() =~= s@.subrange(
            start as int,
            end - 1,
        ));
        end = end - 1;
    }
    vstd::slice::slice_subrange(s, start, end)
}

/// What is trimmed off is space, tab, line feed, form feed and carriage return, at the
/// two ends; what is left neither starts nor ends with one of them.
pub proof fn law_trimming_takes_only_whitespace(s: &[u8], r: &[u8])
    requires
        call_ensures(trim_ascii, (s,), r),
    ensures
        exists|from: int, to: int|
            {
                &&& 0 <= from <= to <= s@.len()
                &&& r@ == #[trigger] s@.subrange(from, to)
                &&& forall|i: int|
                    (0 <= i < from || to <= i < s@.len()) ==> (#[trigger] s@[i] == 9 || s@[i] == 10
                        || s@[i] == 12 || s@[i] == 13 || s@[i] == 32)
            },
        r@.len() > 0 ==> !seq![9u8, 10u8, 12u8, 13u8, 32u8].contains(r@[0]) && !seq![
            9u8,
            10u8,
            12u8,
            13u8,
            32u8,
        ].contains(r@.last()),
{
    let (from, to) = lemma_trimmed(s@);
    assert(r@ == s@.subrange(from, to));
}

/// What trimming leaves is a stretch of the bytes with whitespace on either side.
proof fn lemma_trimmed(s: Seq<u8>) -> (r: (int, int))
    ensures
        0 <= r.0 <= r.1 <= s.len(),
        trimmed(s) == s.subrange(r.0, r.1),
        forall|i: int| (0 <= i < r.0 || r.1 <= i < s.len()) ==> is_space(#[trigger] s[i]),
        trimmed(s).len() > 0 ==> !is_space(trimmed(s)[0]) && !is_space(trimmed(s).last()),
    decreases s.len(),
{
    if s.len() == 0 {
        assert(s =~= s.subrange(0, 0));
        (0, 0)
    } else if is_space(s[0]) {
        let t = s.drop_first();
        let (from, to) = lemma_trimmed(t);
        assert(t.subrange(from, to) =~= s.subrange(from + 1, to + 1));
        assert forall|i: int| (0 <= i < from + 1 || to + 1 <= i < s.len()) implies is_space(
            #[trigger] s[i],
        ) by {
            if i > 0 {
                assert(t[i - 1] == s[i]);
            }
        }
        (from + 1, to + 1)
    } else if is_space(s.last()) {
        let t = s.drop_last();
        let (from, to) = lemma_trimmed(t);
        assert(t.subrange(from, to) =~= s.subrange(from, to));
        assert forall|i: int| (0 <= i < from || to <= i < s.len()) implies is_space(
            #[trigger] s[i],
        ) by {
            if i < t.len() {
                assert(t[i] == s[i]);
            }
        }
        (from, to)
    } else {
        assert(s =~= s.subrange(0, s.len() as int));
        (0, s.len() as int)
    }
}

/// The form of a line neither starts nor ends with whitespace.
pub proof fn law_a_form_has_no_whitespace_at_its_ends(line: &[u8], r: Vec<u8>)
    requires
        call_ensures(normalize_line, (line,), r),
    ensures
        r@.len() > 0 ==> !seq![9u8, 10u8, 12u8, 13u8, 32u8].contains(r@[0]) && !seq![
            9u8,
            10u8,
            12u8,
            13u8,
            32u8,
        ].contains(r@.last()),
{
    let a = regex_replaced(STRINGS@, line@, seq![34u8, 83u8, 34u8]);
    let b = regex_replaced(NUMBERS@, a, seq![78u8]);
    let c = regex_replaced(IDENTIFIERS@, b, seq![73u8]);
    let _ = lemma_trimmed(regex_replaced(SPACES@, c, seq![32u8]));
}

} // verus!
