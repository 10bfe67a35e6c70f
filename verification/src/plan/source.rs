//! What a review is of: endpoints, and the identity it is filed under.
use vstd::prelude::*;
use vstd::string::*;

use crate::schema::SourceKind;
use crate::text::{
    chars_of, debug_text, decimal, find_text, first_occurrence, lemma_first_is,
    lemma_first_occurrence, occurs_at, push_decimal, push_str, quoted, string_of,
};
use crate::EngineError;

verus! {

/// A revision-range spec, parsed. Resolving `MergeBase` needs a repository, but
/// deciding what the user asked for does not.
#[derive(Debug, Clone, PartialEq, Eq)]
pub enum RangeSpec {
    /// `a..b`, or two separate revs: the endpoints as typed.
    Direct { base: String, head: String },
    /// `a...b`: the base is the merge-base.
    MergeBase { a: String, b: String },
}

/// What a range spec says.
pub enum RangeView {
    Direct { base: Seq<char>, head: Seq<char> },
    MergeBase { a: Seq<char>, b: Seq<char> },
}

impl View for RangeSpec {
    type V = RangeView;

    open spec fn view(&self) -> RangeView {
        match self {
            RangeSpec::Direct { base, head } => RangeView::Direct { base: base@, head: head@ },
            RangeSpec::MergeBase { a, b } => RangeView::MergeBase { a: a@, b: b@ },
        }
    }
}

impl RangeView {
    /// The head endpoint.
    pub open spec fn head(self) -> Seq<char> {
        match self {
            RangeView::Direct { head, .. } => head,
            RangeView::MergeBase { b, .. } => b,
        }
    }
}

impl RangeSpec {
    /// The head endpoint as typed. This is a review's identity, not an endpoint: a
    /// branch name keeps a review stable while its tip moves.
    pub fn head_spec(&self) -> (r: &str)
        ensures
            r@ == self@.head(),
    {
        match self {
            RangeSpec::Direct { head, .. } => head.as_str(),
            RangeSpec::MergeBase { b, .. } => b.as_str(),
        }
    }
}

/// What one argument asks for: three dots mean the merge base, two dots the
/// endpoints as typed; the first separator counts.
pub open spec fn range_of(one: Seq<char>) -> Result<RangeView, Seq<char>> {
    match first_occurrence(one, "..."@, 0) {
        Some(i) => Ok(RangeView::MergeBase { a: one.take(i), b: one.skip(i + 3) }),
        None => match first_occurrence(one, ".."@, 0) {
            Some(i) => Ok(RangeView::Direct { base: one.take(i), head: one.skip(i + 2) }),
            None => Err(
                "single argument must be <base>..<head> or <a>...<b>, got "@ + debug_text(one),
            ),
        },
    }
}

/// What the arguments ask for.
pub open spec fn range_of_args(args: Seq<&str>) -> Result<RangeView, Seq<char>> {
    if args.len() == 1 {
        range_of(args[0]@)
    } else if args.len() == 2 {
        Ok(RangeView::Direct { base: args[0]@, head: args[1]@ })
    } else {
        Err("expected one range or two revs, got "@ + decimal(args.len()) + " arguments"@)
    }
}

/// Parse `a..b`, `a...b`, or two separate revs. One parser, so the endpoints and
/// the review's identity can never disagree about which side is the head.
pub fn parse_range(spec: &[&str]) -> (r: Result<RangeSpec, EngineError>)
    ensures
        match (r, range_of_args(spec@)) {
            (Ok(s), Ok(v)) => s@ == v,
            (Err(EngineError::Range(msg)), Err(m)) => msg@ == m,
            _ => false,
        },
{
    if spec.len() == 2 {
        return Ok(RangeSpec::Direct { base: spec[0].to_owned(), head: spec[1].to_owned() });
    }
    if spec.len() != 1 {
        let mut msg = String::new();
        push_str(&mut msg, "expected one range or two revs, got ");
        push_decimal(&mut msg, spec.len() as u64);
        push_str(&mut msg, " arguments");
        assert(msg@ =~= "expected one range or two revs, got "@ + decimal(spec@.len())
            + " arguments"@);
        return Err(EngineError::Range(msg));
    }
    let one = spec[0];
    let cs = chars_of(one);
    proof {
        reveal_strlit("...");
        reveal_strlit("..");
        lemma_first_occurrence(one@, "..."@, 0);
        lemma_first_occurrence(one@, ".."@, 0);
    }
    if let Some(i) = find_text(cs.as_slice(), "...") {
        assert(i + 3 <= cs.len());
        let a = string_of(vstd::slice::slice_subrange(cs.as_slice(), 0, i));
        let b = string_of(vstd::slice::slice_subrange(cs.as_slice(), i + 3, cs.len()));
        assert(a@ =~= one@.take(i as int));
        assert(b@ =~= one@.skip(i + 3));
        return Ok(RangeSpec::MergeBase { a, b });
    }
    if let Some(i) = find_text(cs.as_slice(), "..") {
        assert(i + 2 <= cs.len());
        let base = string_of(vstd::slice::slice_subrange(cs.as_slice(), 0, i));
        let head = string_of(vstd::slice::slice_subrange(cs.as_slice(), i + 2, cs.len()));
        assert(base@ =~= one@.take(i as int));
        assert(head@ =~= one@.skip(i + 2));
        return Ok(RangeSpec::Direct { base, head });
    }
    let mut msg = String::new();
    push_str(&mut msg, "single argument must be <base>..<head> or <a>...<b>, got ");
    push_str(&mut msg, &quoted(one));
    Err(EngineError::Range(msg))
}

/// A run of dots.
spec fn dots(s: Seq<char>, n: int) -> bool {
    s.len() == n && forall|i: int| 0 <= i < n ==> s[i] == '.'
}

proof fn lemma_dots_at(s: Seq<char>, d: Seq<char>, n: int, i: int)
    requires
        dots(d, n),
    ensures
        occurs_at(s, d, i) <==> 0 <= i && i + n <= s.len() && forall|k: int|
            i <= k < i + n ==> s[k] == '.',
{
    if 0 <= i && i + n <= s.len() {
        let t = s.subrange(i, i + n);
        if t == d {
            assert forall|k: int| i <= k < i + n implies s[k] == '.' by {
                assert(t[k - i] == d[k - i]);
            }
        }
        if forall|k: int| i <= k < i + n ==> s[k] == '.' {
            assert(t =~= d);
        }
    }
}

/// Two dots in a row are ruled out before the separator.
proof fn lemma_no_dots_before(a: Seq<char>, rest: Seq<char>, two: Seq<char>, i: int)
    requires
        dots(two, 2),
        first_occurrence(a, two, 0) is None,
        a.len() > 0 ==> a.last() != '.',
        0 <= i < a.len(),
        i + 2 <= a.len() + rest.len(),
    ensures
        !((a + rest)[i] == '.' && (a + rest)[i + 1] == '.'),
{
    assert((a + rest)[i] == a[i]);
    if i + 1 < a.len() {
        assert((a + rest)[i + 1] == a[i + 1]);
        lemma_first_occurrence(a, two, 0);
        lemma_dots_at(a, two, 2, i);
        assert(!occurs_at(a, two, i));
    }
}

/// A separator of `n` dots behind such a base is found where it stands.
proof fn lemma_separator(
    a: Seq<char>,
    sep: Seq<char>,
    b: Seq<char>,
    two: Seq<char>,
    n: int,
)
    requires
        dots(two, 2),
        n >= 2,
        dots(sep, n),
        first_occurrence(a, two, 0) is None,
        a.len() > 0 ==> a.last() != '.',
    ensures
        first_occurrence(a + sep + b, sep, 0) == Some(a.len() as int),
        (a + sep + b).take(a.len() as int) == a,
        (a + sep + b).skip(a.len() + n) == b,
{
    let s = a + sep + b;
    let rest = sep + b;
    let m = a.len() as int;
    assert(s =~= a + rest);
    assert(s.subrange(m, m + n) =~= sep);
    assert(occurs_at(s, sep, m));
    assert forall|i: int| 0 <= i < m implies !#[trigger] occurs_at(s, sep, i) by {
        lemma_dots_at(s, sep, n, i);
        if occurs_at(s, sep, i) {
            lemma_no_dots_before(a, rest, two, i);
            assert(s[i] == '.' && s[i + 1] == '.');
        }
    }
    lemma_first_is(s, sep, 0, m);
    assert(s.take(m) =~= a);
    assert(s.skip(m + n) =~= b);
}

/// Behind two dots and such a head there are no three dots.
proof fn lemma_no_three_dots(
    a: Seq<char>,
    b: Seq<char>,
    two: Seq<char>,
    three: Seq<char>,
)
    requires
        dots(two, 2),
        dots(three, 3),
        first_occurrence(a, two, 0) is None,
        a.len() > 0 ==> a.last() != '.',
        b.len() > 0 ==> b[0] != '.',
        first_occurrence(b, three, 0) is None,
    ensures
        first_occurrence(a + two + b, three, 0) is None,
{
    let n = a.len() as int;
    let s = a + two + b;
    let rest = two + b;
    assert(s =~= a + rest);
    lemma_first_occurrence(s, three, 0);
    if let Some(i) = first_occurrence(s, three, 0) {
        lemma_dots_at(s, three, 3, i);
        assert(s[i] == '.' && s[i + 1] == '.' && s[i + 2] == '.');
        if i < n {
            lemma_no_dots_before(a, rest, two, i);
        } else if i < n + 2 {
            assert(s[n + 2] == b[0]);
        } else {
            let j = i - n - 2;
            lemma_first_occurrence(b, three, 0);
            lemma_dots_at(b, three, 3, j);
            assert(s[i] == b[j] && s[i + 1] == b[j + 1] && s[i + 2] == b[j + 2]);
            assert(!occurs_at(b, three, j));
        }
    }
}

/// Every spelling of a range agrees on which side is the head: the right one. The
/// base holds no two dots in a row and does not end in a dot; for the two-dot
/// spelling the head does not start with a dot and holds no three in a row.
pub proof fn law_the_head_is_the_right_hand_side(a: Seq<char>, b: Seq<char>)
    requires
        first_occurrence(a, ".."@, 0) is None,
        a.len() > 0 ==> a.last() != '.',
    ensures
        (b.len() > 0 ==> b[0] != '.') && first_occurrence(b, "..."@, 0) is None ==> range_of(
            a + ".."@ + b,
        ) == Ok::<RangeView, Seq<char>>(RangeView::Direct { base: a, head: b }),
        range_of(a + "..."@ + b) == Ok::<RangeView, Seq<char>>(RangeView::MergeBase { a, b }),
{
    assert(dots("..."@, 3)) by {
        reveal_strlit("...");
    }
    assert(dots(".."@, 2)) by {
        reveal_strlit("..");
    }
    if (b.len() > 0 ==> b[0] != '.') && first_occurrence(b, "..."@, 0) is None {
        lemma_no_three_dots(a, b, ".."@, "..."@);
        lemma_separator(a, ".."@, b, ".."@, 2);
    }
    lemma_separator(a, "..."@, b, ".."@, 3);
}

/// A resolved review source: where the diff comes from, and what the review is
/// filed under. The two are separate, because reviewing uncommitted work diffs
/// against synthesized trees that churn on every edit while the review itself
/// must survive.
#[derive(Debug, Clone, PartialEq, Eq)]
pub struct ReviewSource {
    pub base: String,
    pub head: String,
    pub kind: SourceKind,
    /// The head endpoint as typed.
    pub head_spec: String,
    /// The base a review is filed under when it differs from `base`.
    pub identity_base: Option<String>,
}

impl ReviewSource {
    /// A plain committed range.
    pub fn range(base: String, head: String, head_spec: String) -> (r: Self)
        ensures
            r.base == base,
            r.head == head,
            r.kind == SourceKind::Range,
            r.head_spec == head_spec,
            r.identity_base is None,
    {
        ReviewSource { base, head, kind: SourceKind::Range, head_spec, identity_base: None }
    }
}

/// Two revisions are a base and a head as they stand. One argument with two dots between
/// them is the same, and one with three dots asks for their merge base.
pub proof fn law_a_range_is_read_as_it_is_spelled(
    spec: &[&str],
    a: Seq<char>,
    b: Seq<char>,
    r: Result<RangeSpec, EngineError>,
)
    requires
        call_ensures(parse_range, (spec,), r),
        first_occurrence(a, ".."@, 0) is None,
        a.len() > 0 ==> a.last() != '.',
        b.len() > 0 ==> b[0] != '.',
        first_occurrence(b, "..."@, 0) is None,
    ensures
        spec@.len() == 2 && spec@[0]@ == a && spec@[1]@ == b ==> (r matches Ok(RangeSpec::Direct {
            base,
            head,
        }) && base@ == a && head@ == b),
        spec@.len() == 1 && spec@[0]@ == a + ".."@ + b ==> (r matches Ok(RangeSpec::Direct {
            base,
            head,
        }) && base@ == a && head@ == b),
        spec@.len() == 1 && spec@[0]@ == a + "..."@ + b ==> (r matches Ok(RangeSpec::MergeBase {
            a: x,
            b: y,
        }) && x@ == a && y@ == b),
        spec@.len() != 1 && spec@.len() != 2 ==> r is Err,
{
    law_the_head_is_the_right_hand_side(a, b);
}

} // verus!
