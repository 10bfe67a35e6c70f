//! The model's answer: code fences and surrounding prose are tolerated, then
//! there must be an object between the first `{` and the last `}`. No retry: the
//! error carries a sample and the caller decides.
use vstd::prelude::*;
use vstd::string::*;

use crate::text::{chars_of, string_of};
use crate::EngineError;

verus! {

/// The grouping as the model states it.
#[derive(Debug, Clone, PartialEq)]
pub struct RawGroups {
    pub groups: Vec<RawGroup>,
}

/// One group as the model states it.
#[derive(Debug, Clone, PartialEq)]
pub struct RawGroup {
    pub label: String,
    pub description: String,
    pub classes: Vec<String>,
    /// Unknown values count as "focus" (when in doubt, focus).
    pub effort: String,
    pub reason: String,
}

/// The effort of a group that states none.
pub fn default_effort() -> (r: String)
    ensures
        r@ == "focus"@,
{
    "focus".to_owned()
}

/// How much of an answer an error quotes.
pub const SAMPLE_LENGTH: usize = 300;

/// Whether an object lies in `text` from place `a` to place `b`: the first `{`
/// and the last `}`, in this order.
pub open spec fn object_at(text: Seq<char>, a: int, b: int) -> bool {
    &&& 0 <= a <= b < text.len()
    &&& text[a] == '{'
    &&& text[b] == '}'
    &&& forall|i: int| 0 <= i < a ==> text[i] != '{'
    &&& forall|i: int| b < i < text.len() ==> text[i] != '}'
}

/// Whether a text holds something that can be an object.
pub open spec fn has_object(text: Seq<char>) -> bool {
    exists|a: int, b: int| object_at(text, a, b)
}

/// The start of an answer that an error quotes.
pub open spec fn sample(text: Seq<char>) -> Seq<char> {
    if text.len() <= SAMPLE_LENGTH {
        text
    } else {
        text.take(SAMPLE_LENGTH as int)
    }
}

/// Cut the object out of an answer.
pub fn json_object(text: &str) -> (r: Result<String, EngineError>)
    ensures
        r is Ok <==> has_object(text@),
        r matches Ok(o) ==> exists|a: int, b: int|
            #[trigger] object_at(text@, a, b) && o@ == text@.subrange(a, b + 1),
        r matches Err(e) ==> is_parse_error(e, "no JSON object in response"@, text@),
{
    let cs = chars_of(text);
    let mut a: usize = 0;
    while a < cs.len() && cs[a] != '{'
        invariant
            a <= cs@.len(),
            forall|i: int| 0 <= i < a ==> cs@[i] != '{',
        decreases cs@.len() - a,
    {
        a = a + 1;
    }
    let mut b: usize = cs.len();
    while b > 0 && cs[b - 1] != '}'
        invariant
            b <= cs@.len(),
            forall|i: int| b <= i < cs@.len() ==> cs@[i] != '}',
        decreases b,
    {
        b = b - 1;
    }
    if a == cs.len() || b == 0 || b - 1 < a {
        proof {
            if has_object(text@) {
                let (x, y) = choose|x: int, y: int| object_at(text@, x, y);
                assert(cs@[x] == '{' && cs@[y] == '}');
                assert(x <= a || !(a < cs@.len()));
            }
        }
        return Err(err("no JSON object in response", text));
    }
    assert(object_at(text@, a as int, b - 1));
    Ok(string_of(vstd::slice::slice_subrange(cs.as_slice(), a, b)))
}

/// Whether an error says that an answer holds no grouping, and why.
pub open spec fn is_parse_error(e: EngineError, why: Seq<char>, text: Seq<char>) -> bool {
    e matches EngineError::GroupingParse { msg, sample: quoted } && msg@ == why && quoted@ == sample(
        text,
    )
}

/// The error for an answer that holds no grouping.
pub fn err(msg: &str, text: &str) -> (r: EngineError)
    ensures
        is_parse_error(r, msg@, text@),
{
    let cs = chars_of(text);
    let n: usize = if cs.len() <= SAMPLE_LENGTH {
        cs.len()
    } else {
        SAMPLE_LENGTH
    };
    let quoted = string_of(vstd::slice::slice_subrange(cs.as_slice(), 0, n));
    assert(quoted@ =~= sample(text@));
    EngineError::GroupingParse { msg: msg.to_owned(), sample: quoted }
}

} // verus!
