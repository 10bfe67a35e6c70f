//! A JSON value as plain data: what a tool printed, and what is sent to it.
//!
//! Text is read and written by the `serde_json` crate. One level of its values is
//! taken apart or put together at a time; the walk over a whole value is here.
use serde_json::Value;
use vstd::prelude::*;

use crate::text::str_eq;

verus! {

/// A JSON value. A number that is not whole is told apart and not kept: nothing
/// here reads one.
#[derive(Debug, PartialEq, Eq)]
pub enum Json {
    Null,
    Bool(bool),
    Natural(u64),
    Negative(i64),
    Fraction,
    Text(String),
    List(Vec<Json>),
    Object(Vec<(String, Json)>),
}

/// What a JSON value says. The entries of an object have no order, and no key twice.
pub enum JsonView {
    Null,
    Bool(bool),
    Whole(int),
    Fraction,
    Text(Seq<char>),
    List(Seq<JsonView>),
    Object(Map<Seq<char>, JsonView>),
}

/// The object that a list of entries makes: of two with one key, the first counts.
pub open spec fn object_of(entries: Seq<(Seq<char>, JsonView)>) -> Map<Seq<char>, JsonView>
    decreases entries.len(),
{
    if entries.len() == 0 {
        Map::empty()
    } else {
        let before = object_of(entries.drop_last());
        let e = entries.last();
        if before.dom().contains(e.0) {
            before
        } else {
            before.insert(e.0, e.1)
        }
    }
}

impl Json {
    /// What this value says.
    pub open spec fn said(self) -> JsonView
        decreases self,
    {
        match self {
            Json::Null => JsonView::Null,
            Json::Bool(b) => JsonView::Bool(b),
            Json::Natural(n) => JsonView::Whole(n as int),
            Json::Negative(n) => JsonView::Whole(n as int),
            Json::Fraction => JsonView::Fraction,
            Json::Text(s) => JsonView::Text(s@),
            Json::List(items) => JsonView::List(
                Seq::new(
                    items@.len(),
                    |i: int|
                        if 0 <= i < items@.len() {
                            items@[i].said()
                        } else {
                            JsonView::Null
                        },
                ),
            ),
            Json::Object(pairs) => JsonView::Object(object_of(pairs_said(pairs@))),
        }
    }
}

/// What the entries of an object say.
pub open spec fn pairs_said(pairs: Seq<(String, Json)>) -> Seq<(Seq<char>, JsonView)>
    decreases pairs,
{
    Seq::new(
        pairs.len(),
        |i: int|
            if 0 <= i < pairs.len() {
                (pairs[i].0@, pairs[i].1.said())
            } else {
                (Seq::empty(), JsonView::Null)
            },
    )
}

impl View for Json {
    type V = JsonView;

    open spec fn view(&self) -> JsonView {
        self.said()
    }
}

/// The value of the first entry with a key, from place `from` on.
pub open spec fn entry(pairs: Seq<(String, Json)>, key: Seq<char>, from: int) -> Option<Json>
    decreases pairs.len() - from,
{
    if from >= pairs.len() {
        None
    } else if pairs[from].0@ == key {
        Some(pairs[from].1)
    } else {
        entry(pairs, key, from + 1)
    }
}

/// The value under a key of an object.
pub open spec fn field(v: Option<Json>, key: Seq<char>) -> Option<Json> {
    match v {
        Some(Json::Object(pairs)) => entry(pairs@, key, 0),
        _ => None,
    }
}

/// The text that a value is.
pub open spec fn text_in(v: Option<Json>) -> Option<Seq<char>> {
    match v {
        Some(Json::Text(s)) => Some(s@),
        _ => None,
    }
}

/// The truth value that a value is.
pub open spec fn bool_in(v: Option<Json>) -> Option<bool> {
    match v {
        Some(Json::Bool(b)) => Some(b),
        _ => None,
    }
}

/// The natural number that a value is.
pub open spec fn natural_in(v: Option<Json>) -> Option<u64> {
    match v {
        Some(Json::Natural(n)) => Some(n),
        Some(Json::Negative(n)) => if n >= 0 {
            Some(n as u64)
        } else {
            None
        },
        _ => None,
    }
}

/// The whole number that a value is, within 64 bits.
pub open spec fn integer_in(v: Option<Json>) -> Option<i64> {
    match v {
        Some(Json::Natural(n)) => if n <= i64::MAX {
            Some(n as i64)
        } else {
            None
        },
        Some(Json::Negative(n)) => Some(n),
        _ => None,
    }
}

/// The items of the list that a value is.
pub open spec fn items_in(v: Option<Json>) -> Option<Seq<Json>> {
    match v {
        Some(Json::List(items)) => Some(items@),
        _ => None,
    }
}

/// A found value, owned.
pub open spec fn found(v: Option<&Json>) -> Option<Json> {
    match v {
        Some(j) => Some(*j),
        None => None,
    }
}

impl Json {
    /// The value under a key; `None` where this is no object or has no such key.
    pub fn get(&self, key: &str) -> (r: Option<&Json>)
        ensures
            found(r) == field(Some(*self), key@),
    {
        match self {
            Json::Object(pairs) => {
                for i in 0..pairs.len()
                    invariant
                        *self == Json::Object(*pairs),
                        entry(pairs@, key@, 0) == entry(pairs@, key@, i as int),
                {
                    if str_eq(&pairs[i].0, key) {
                        return Some(&pairs[i].1);
                    }
                }
                None
            },
            _ => None,
        }
    }
}

/// The value under a key of what was found.
pub fn get_in<'a>(v: Option<&'a Json>, key: &str) -> (r: Option<&'a Json>)
    ensures
        found(r) == field(found(v), key@),
{
    match v {
        Some(j) => j.get(key),
        None => None,
    }
}

/// The text that was found.
pub fn as_text<'a>(v: Option<&'a Json>) -> (r: Option<&'a str>)
    ensures
        match r {
            Some(s) => text_in(found(v)) == Some(s@),
            None => text_in(found(v)) is None,
        },
{
    match v {
        Some(Json::Text(s)) => Some(s.as_str()),
        _ => None,
    }
}

/// The truth value that was found.
pub fn as_bool(v: Option<&Json>) -> (r: Option<bool>)
    ensures
        r == bool_in(found(v)),
{
    match v {
        Some(Json::Bool(b)) => Some(*b),
        _ => None,
    }
}

/// The natural number that was found.
pub fn as_natural(v: Option<&Json>) -> (r: Option<u64>)
    ensures
        r == natural_in(found(v)),
{
    match v {
        Some(Json::Natural(n)) => Some(*n),
        Some(Json::Negative(n)) => if *n >= 0 {
            Some(*n as u64)
        } else {
            None
        },
        _ => None,
    }
}

/// The whole number that was found.
pub fn as_integer(v: Option<&Json>) -> (r: Option<i64>)
    ensures
        r == integer_in(found(v)),
{
    match v {
        Some(Json::Natural(n)) => if *n <= i64::MAX as u64 {
            Some(*n as i64)
        } else {
            None
        },
        Some(Json::Negative(n)) => Some(*n),
        _ => None,
    }
}

/// The list that was found.
pub fn as_list<'a>(v: Option<&'a Json>) -> (r: Option<&'a Vec<Json>>)
    ensures
        match r {
            Some(items) => items_in(found(v)) == Some(items@),
            None => items_in(found(v)) is None,
        },
{
    match v {
        Some(Json::List(items)) => Some(items),
        _ => None,
    }
}

// ---------------------------------------------------------------------------
// Reading and writing text

/// A JSON value of the `serde_json` crate.
#[verifier::external_type_specification]
#[verifier::external_body]
pub struct ExValue(serde_json::Value);

/// What a value of the `serde_json` crate holds.
pub uninterp spec fn held(v: Value) -> JsonView;

/// The value that bytes are read as, or what is wrong with them.
pub uninterp spec fn json_read(bytes: Seq<u8>) -> Result<JsonView, Seq<char>>;

/// The text that a value without fractions is written as.
pub uninterp spec fn json_written(v: JsonView) -> Seq<char>;

/// One level of a value of the `serde_json` crate.
pub enum Part {
    Null,
    Bool(bool),
    Natural(u64),
    Negative(i64),
    Fraction,
    Text(String),
    List(Vec<Value>),
    Object(Vec<(String, Value)>),
}

/// What the items of a list hold.
pub open spec fn items_held(items: Seq<Value>) -> Seq<JsonView> {
    Seq::new(items.len(), |i: int| held(items[i]))
}

/// What the entries of an object hold.
pub open spec fn pairs_held(pairs: Seq<(String, Value)>) -> Seq<(Seq<char>, JsonView)> {
    Seq::new(pairs.len(), |i: int| (pairs[i].0@, held(pairs[i].1)))
}

/// What one level holds.
pub open spec fn part_held(p: Part) -> JsonView {
    match p {
        Part::Null => JsonView::Null,
        Part::Bool(b) => JsonView::Bool(b),
        Part::Natural(n) => JsonView::Whole(n as int),
        Part::Negative(n) => JsonView::Whole(n as int),
        Part::Fraction => JsonView::Fraction,
        Part::Text(s) => JsonView::Text(s@),
        Part::List(items) => JsonView::List(items_held(items@)),
        Part::Object(pairs) => JsonView::Object(object_of(pairs_held(pairs@))),
    }
}

/// Whether no key occurs twice.
pub open spec fn keys_differ(pairs: Seq<(String, Value)>) -> bool {
    forall|i: int, j: int|
        0 <= i < j < pairs.len() ==> (#[trigger] pairs[i]).0@ != (#[trigger] pairs[j]).0@
}

/// `serde_json::from_slice` into a `serde_json::Value`: whether bytes are a JSON text,
/// the value, and the message where they are not, depend on the bytes alone.
#[verifier::external_body]
fn value_from(bytes: &[u8]) -> (r: Result<Value, String>)
    ensures
        match r {
            Ok(v) => json_read(bytes@) == Ok::<JsonView, Seq<char>>(held(v)),
            Err(msg) => json_read(bytes@) == Err::<JsonView, Seq<char>>(msg@),
        },
{
    serde_json::from_slice::<Value>(bytes).map_err(|e| e.to_string())
}

/// The variants of `serde_json::Value`, and of the numbers that
/// `serde_json::Number::as_u64` and `as_i64` tell apart: the value holds what the one
/// level does. An object is a map, so no key occurs twice.
#[verifier::external_body]
fn apart(v: Value) -> (r: Part)
    ensures
        part_held(r) == held(v),
        r matches Part::Object(pairs) ==> keys_differ(pairs@),
{
    match v {
        Value::Null => Part::Null,
        Value::Bool(b) => Part::Bool(b),
        Value::Number(n) => match (n.as_u64(), n.as_i64()) {
            (Some(u), _) => Part::Natural(u),
            (None, Some(i)) => Part::Negative(i),
            (None, None) => Part::Fraction,
        },
        Value::String(s) => Part::Text(s),
        Value::Array(items) => Part::List(items),
        Value::Object(map) => Part::Object(map.into_iter().collect()),
    }
}

/// The constructors of `serde_json::Value`, with `From` for the two kinds of whole
/// numbers: the value holds what the one level does. There is none for a fraction.
#[verifier::external_body]
fn together(p: Part) -> (r: Value)
    requires
        !(p is Fraction),
        p matches Part::Object(pairs) ==> keys_differ(pairs@),
    ensures
        held(r) == part_held(p),
{
    match p {
        Part::Null | Part::Fraction => Value::Null,
        Part::Bool(b) => Value::Bool(b),
        Part::Natural(n) => Value::from(n),
        Part::Negative(n) => Value::from(n),
        Part::Text(s) => Value::String(s),
        Part::List(items) => Value::Array(items),
        Part::Object(pairs) => Value::Object(pairs.into_iter().collect()),
    }
}

/// Whether a value has no fraction in it.
pub open spec fn is_whole(v: JsonView) -> bool
    decreases v,
{
    match v {
        JsonView::Fraction => false,
        JsonView::List(items) => forall|i: int| 0 <= i < items.len() ==> is_whole(items[i]),
        JsonView::Object(map) => map.dom().finite() && forall|k: Seq<char>| #[trigger]
            map.dom().contains(k) ==> is_whole(map[k]),
        _ => true,
    }
}

/// An object whose entries have no fraction in them has none.
pub(crate) proof fn lemma_whole_object(pairs: Vec<(String, Json)>)
    requires
        forall|j: int| 0 <= j < pairs@.len() ==> is_whole((#[trigger] pairs@[j]).1@),
    ensures
        is_whole(Json::Object(pairs)@),
{
    lemma_whole_entries(pairs_said(pairs@));
    lemma_object_of(pairs_said(pairs@));
}

proof fn lemma_whole_entries(entries: Seq<(Seq<char>, JsonView)>)
    requires
        forall|j: int| 0 <= j < entries.len() ==> is_whole((#[trigger] entries[j]).1),
    ensures
        forall|k: Seq<char>| #[trigger]
            object_of(entries).dom().contains(k) ==> is_whole(object_of(entries)[k]),
    decreases entries.len(),
{
    if entries.len() > 0 {
        let before = entries.drop_last();
        assert forall|j: int| 0 <= j < before.len() implies is_whole((#[trigger] before[j]).1) by {
            assert(before[j] == entries[j]);
        }
        lemma_whole_entries(before);
        assert forall|k: Seq<char>| #[trigger] object_of(entries).dom().contains(k) implies is_whole(
            object_of(entries)[k],
        ) by {
            if !object_of(before).dom().contains(k) {
                assert(is_whole(entries[entries.len() - 1].1));
            }
        }
    }
}

/// `serde_json::Value` through `Display`, compact: the text depends on what the value
/// holds alone, an object being printed in the order of its keys. Nothing is said of a
/// value with a fraction, whose digits are not kept.
#[verifier::external_body]
fn text_from(v: &Value) -> (r: String)
    requires
        is_whole(held(*v)),
    ensures
        r@ == json_written(held(*v)),
{
    v.to_string()
}

proof fn lemma_object_of(entries: Seq<(Seq<char>, JsonView)>)
    ensures
        object_of(entries).dom().finite(),
        forall|k: Seq<char>| #[trigger]
            object_of(entries).dom().contains(k) ==> exists|j: int|
                0 <= j < entries.len() && (#[trigger] entries[j]).0 == k,
        forall|j: int|
            0 <= j < entries.len() ==> object_of(entries).dom().contains(
                (#[trigger] entries[j]).0,
            ),
    decreases entries.len(),
{
    if entries.len() > 0 {
        let before = entries.drop_last();
        lemma_object_of(before);
        assert forall|k: Seq<char>| #[trigger]
            object_of(entries).dom().contains(k) implies exists|j: int|
            0 <= j < entries.len() && (#[trigger] entries[j]).0 == k by {
            if object_of(before).dom().contains(k) {
                let j = choose|j: int| 0 <= j < before.len() && (#[trigger] before[j]).0 == k;
                assert(entries[j].0 == k);
            } else {
                assert(entries[entries.len() - 1].0 == k);
            }
        }
        assert forall|j: int| 0 <= j < entries.len() implies object_of(entries).dom().contains(
            (#[trigger] entries[j]).0,
        ) by {
            if j < before.len() {
                assert(before[j] == entries[j]);
            }
        }
    }
}

proof fn lemma_object_holds(entries: Seq<(Seq<char>, JsonView)>, i: int)
    requires
        0 <= i < entries.len(),
        forall|a: int, b: int|
            0 <= a < b < entries.len() ==> (#[trigger] entries[a]).0 != (#[trigger] entries[b]).0,
    ensures
        object_of(entries).dom().contains(entries[i].0),
        object_of(entries)[entries[i].0] == entries[i].1,
    decreases entries.len(),
{
    let before = entries.drop_last();
    lemma_object_of(before);
    if i < before.len() {
        assert(before[i] == entries[i]);
        lemma_object_holds(before, i);
    } else if object_of(before).dom().contains(entries[i].0) {
        let j = choose|j: int| 0 <= j < before.len() && (#[trigger] before[j]).0 == entries[i].0;
        assert(entries[j].0 == entries[i].0);
    }
}

/// A value of the `serde_json` crate as plain data.
fn plain(v: Value) -> (r: Json)
    ensures
        r@ == held(v),
    decreases held(v),
{
    let ghost whole = held(v);
    match apart(v) {
        Part::Null => Json::Null,
        Part::Bool(b) => Json::Bool(b),
        Part::Natural(n) => Json::Natural(n),
        Part::Negative(n) => Json::Negative(n),
        Part::Fraction => Json::Fraction,
        Part::Text(s) => Json::Text(s),
        Part::List(items) => {
            let ghost all = items@;
            let mut out: Vec<Json> = Vec::new();
            for item in it: items
                invariant
                    it.seq() == all,
                    whole == held(v),
                    whole == JsonView::List(items_held(all)),
                    out@.len() == it.index(),
                    forall|j: int| 0 <= j < out@.len() ==> (#[trigger] out@[j])@ == held(all[j]),
            {
                assert(items_held(all)[it.index()] == held(item));
                assert(decreases_to!(whole => whole->List_0));
                assert(decreases_to!(whole->List_0 => whole->List_0[it.index()]));
                out.push(plain(item));
            }
            let r = Json::List(out);
            assert(r@->List_0 =~= items_held(all));
            assert(r@ == whole);
            r
        },
        Part::Object(pairs) => {
            let ghost all = pairs@;
            let ghost entries = pairs_held(all);
            let mut out: Vec<(String, Json)> = Vec::new();
            proof {
                lemma_object_of(entries);
            }
            for pair in it: pairs
                invariant
                    it.seq() == all,
                    entries == pairs_held(all),
                    keys_differ(all),
                    object_of(entries).dom().finite(),
                    whole == held(v),
                    whole == JsonView::Object(object_of(entries)),
                    out@.len() == it.index(),
                    forall|j: int|
                        0 <= j < out@.len() ==> (#[trigger] out@[j]).0 == all[j].0
                            && out@[j].1@ == held(all[j].1),
            {
                let (key, item) = pair;
                proof {
                    assert forall|a: int, b: int| 0 <= a < b < entries.len() implies (
                    #[trigger] entries[a]).0 != (#[trigger] entries[b]).0 by {
                        assert(all[a].0@ != all[b].0@);
                    }
                    lemma_object_holds(entries, it.index());
                    assert(object_of(entries)[key@] == held(item));
                    assert(decreases_to!(whole => whole->Object_0));
                    assert(decreases_to!(whole->Object_0 => whole->Object_0[key@]));
                }
                out.push((key, plain(item)));
            }
            let r = Json::Object(out);
            assert(pairs_said(out@) =~= entries);
            assert(r@ == whole);
            r
        },
    }
}

/// The value that bytes are read as, or what is wrong with them.
pub fn read_json(bytes: &[u8]) -> (r: Result<Json, String>)
    ensures
        match r {
            Ok(v) => json_read(bytes@) == Ok::<JsonView, Seq<char>>(v@),
            Err(msg) => json_read(bytes@) == Err::<JsonView, Seq<char>>(msg@),
        },
{
    match value_from(bytes) {
        Ok(v) => Ok(plain(v)),
        Err(msg) => Err(msg),
    }
}

/// The object so far, with a key that it lacks.
proof fn lemma_object_push(entries: Seq<(Seq<char>, JsonView)>, e: (Seq<char>, JsonView))
    ensures
        object_of(entries.push(e)) == (if object_of(entries).dom().contains(e.0) {
            object_of(entries)
        } else {
            object_of(entries).insert(e.0, e.1)
        }),
{
    assert(entries.push(e).drop_last() =~= entries);
}

/// What the first entries of an object make has the values of the whole.
proof fn lemma_object_grows(entries: Seq<(Seq<char>, JsonView)>, n: int, k: Seq<char>)
    requires
        0 <= n <= entries.len(),
        object_of(entries.take(n)).dom().contains(k),
    ensures
        object_of(entries).dom().contains(k),
        object_of(entries)[k] == object_of(entries.take(n))[k],
    decreases entries.len() - n,
{
    if n < entries.len() {
        assert(entries.take(n + 1) =~= entries.take(n).push(entries[n]));
        lemma_object_push(entries.take(n), entries[n]);
        lemma_object_grows(entries, n + 1, k);
    } else {
        assert(entries.take(n) =~= entries);
    }
}

fn has_key(pairs: &Vec<(String, Value)>, key: &str) -> (r: bool)
    ensures
        r == object_of(pairs_held(pairs@)).dom().contains(key@),
{
    let ghost entries = pairs_held(pairs@);
    proof {
        lemma_object_of(entries);
    }
    for i in 0..pairs.len()
        invariant
            entries == pairs_held(pairs@),
            forall|j: int|
                0 <= j < entries.len() ==> object_of(entries).dom().contains(
                    (#[trigger] entries[j]).0,
                ),
            forall|j: int| 0 <= j < i ==> (#[trigger] entries[j]).0 != key@,
    {
        if str_eq(&pairs[i].0, key) {
            assert(entries[i as int].0 == key@);
            return true;
        }
    }
    false
}

/// Plain data as a value of the `serde_json` crate; `None` where there is a fraction.
fn value_of(v: &Json) -> (r: Option<Value>)
    ensures
        match r {
            Some(x) => is_whole(v@) && held(x) == v@,
            None => !is_whole(v@),
        },
    decreases v,
{
    match v {
        Json::Null => Some(together(Part::Null)),
        Json::Bool(b) => Some(together(Part::Bool(*b))),
        Json::Natural(n) => Some(together(Part::Natural(*n))),
        Json::Negative(n) => Some(together(Part::Negative(*n))),
        Json::Fraction => None,
        Json::Text(s) => Some(together(Part::Text(s.clone()))),
        Json::List(items) => {
            let mut out: Vec<Value> = Vec::new();
            for i in 0..items.len()
                invariant
                    *v == Json::List(*items),
                    out@.len() == i,
                    forall|j: int|
                        0 <= j < i ==> held(#[trigger] out@[j]) == items@[j]@ && is_whole(
                            items@[j]@,
                        ),
            {
                match value_of(&items[i]) {
                    Some(x) => out.push(x),
                    None => {
                        assert(v@->List_0[i as int] == items@[i as int]@);
                        return None;
                    },
                }
            }
            assert(v@->List_0 =~= items_held(out@));
            assert forall|j: int| 0 <= j < v@->List_0.len() implies is_whole(v@->List_0[j]) by {
                assert(held(out@[j]) == items@[j]@);
            }
            Some(together(Part::List(out)))
        },
        Json::Object(pairs) => {
            let ghost entries = pairs_said(pairs@);
            let mut out: Vec<(String, Value)> = Vec::new();
            assert(pairs_held(out@) =~= entries.take(0));
            for i in 0..pairs.len()
                invariant
                    *v == Json::Object(*pairs),
                    entries == pairs_said(pairs@),
                    keys_differ(out@),
                    object_of(pairs_held(out@)) == object_of(entries.take(i as int)),
                    forall|k: Seq<char>| #[trigger]
                        object_of(pairs_held(out@)).dom().contains(k) ==> is_whole(
                            object_of(pairs_held(out@))[k],
                        ),
            {
                let (key, item) = &pairs[i];
                let ghost before = out@;
                proof {
                    assert(entries.take(i + 1) =~= entries.take(i as int).push(entries[i as int]));
                    lemma_object_push(entries.take(i as int), entries[i as int]);
                    lemma_object_of(pairs_held(before));
                }
                if !has_key(&out, key) {
                    match value_of(item) {
                        Some(x) => {
                            out.push((key.clone(), x));
                            proof {
                                let e = (key@, item@);
                                assert(pairs_held(out@) =~= pairs_held(before).push(e));
                                lemma_object_push(pairs_held(before), e);
                                assert forall|a: int, b: int| 0 <= a < b < out@.len() implies (
                                #[trigger] out@[a]).0@ != (#[trigger] out@[b]).0@ by {
                                    if b == before.len() {
                                        assert(pairs_held(before)[a].0 == out@[a].0@);
                                    }
                                }
                            }
                        },
                        None => {
                            proof {
                                assert(object_of(entries.take(i + 1)).dom().contains(key@));
                                lemma_object_grows(entries, i + 1, key@);
                                assert(v@->Object_0[key@] == item@);
                            }
                            return None;
                        },
                    }
                }
            }
            proof {
                assert(entries.take(pairs@.len() as int) =~= entries);
                lemma_object_of(entries);
            }
            Some(together(Part::Object(out)))
        },
    }
}

/// The text that a value is written as; `None` where there is a fraction in it, whose
/// digits are not kept.
pub fn write_json(v: &Json) -> (r: Option<String>)
    ensures
        match r {
            Some(text) => is_whole(v@) && text@ == json_written(v@),
            None => !is_whole(v@),
        },
{
    match value_of(v) {
        Some(x) => Some(text_from(&x)),
        None => None,
    }
}

/// The field of an object is what the object says of the key.
pub proof fn law_a_field_is_what_the_object_says(pairs: Vec<(String, Json)>, key: Seq<char>)
    ensures
        match field(Some(Json::Object(pairs)), key) {
            Some(v) => Json::Object(pairs)@->Object_0.dom().contains(key)
                && Json::Object(pairs)@->Object_0[key] == v@,
            None => !Json::Object(pairs)@->Object_0.dom().contains(key),
        },
{
    lemma_entry(pairs@, key, 0);
}

proof fn lemma_entry(pairs: Seq<(String, Json)>, key: Seq<char>, from: int)
    requires
        0 <= from <= pairs.len(),
        !object_of(pairs_said(pairs).take(from)).dom().contains(key),
    ensures
        match entry(pairs, key, from) {
            Some(v) => object_of(pairs_said(pairs)).dom().contains(key) && object_of(
                pairs_said(pairs),
            )[key] == v@,
            None => !object_of(pairs_said(pairs)).dom().contains(key),
        },
    decreases pairs.len() - from,
{
    let entries = pairs_said(pairs);
    if from < pairs.len() {
        assert(entries.take(from + 1) =~= entries.take(from).push(entries[from]));
        lemma_object_push(entries.take(from), entries[from]);
        if pairs[from].0@ == key {
            lemma_object_grows(entries, from + 1, key);
        } else {
            lemma_entry(pairs, key, from + 1);
        }
    } else {
        assert(entries.take(from) =~= entries);
    }
}

} // verus!
