//! JSON values, as `serde_json` reads them.

use serde_json::Value;
use vstd::prelude::*;

use crate::text;

verus! {

/// A value of `serde_json`.
#[verifier::external_type_specification]
#[verifier::external_body]
pub struct ExValue(Value);

/// What a value holds.
#[verifier::ext_equal]
pub enum Json {
    Null,
    Bool(bool),
    /// The number, where it is an unsigned integer of 64 bits.
    Number(Option<u64>),
    Text(Seq<char>),
    List(Seq<Json>),
    /// The members in the order in which the map is walked.
    Members(Seq<(Seq<char>, Json)>),
}

/// What a value of `serde_json` holds.
pub uninterp spec fn json_in(v: Value) -> Json;

/// What `serde_json` reads from a text, or its words on why it cannot.
pub uninterp spec fn parsed(text: Seq<char>) -> Result<Json, Seq<char>>;

/// What a list of values holds.
pub open spec fn values_in(list: Seq<Value>) -> Seq<Json> {
    list.map_values(|v: Value| json_in(v))
}

/// What a list of named values holds.
pub open spec fn members_in(list: Seq<(String, Value)>) -> Seq<(Seq<char>, Json)> {
    list.map_values(|m: (String, Value)| (m.0@, json_in(m.1)))
}

/// The member of a name; nothing where there is none.
pub open spec fn member(v: Json, name: Seq<char>) -> Json {
    match v {
        Json::Members(list) => if exists|i: int| 0 <= i < list.len() && (#[trigger] list[i]).0 == name {
            list[choose|i: int| 0 <= i < list.len() && (#[trigger] list[i]).0 == name].1
        } else {
            Json::Null
        },
        _ => Json::Null,
    }
}

/// The unsigned integer in a value.
pub open spec fn number_in(v: Json) -> Option<u64> {
    match v {
        Json::Number(n) => n,
        _ => None,
    }
}

/// The text in a value.
pub open spec fn text_in(v: Json) -> Option<Seq<char>> {
    match v {
        Json::Text(s) => Some(s),
        _ => None,
    }
}

/// The list in a value.
pub open spec fn list_in(v: Json) -> Option<Seq<Json>> {
    match v {
        Json::List(list) => Some(list),
        _ => None,
    }
}

/// Calls `serde_json::from_str`. Claimed of it: what it reads, and its words on why
/// it cannot, depend on the text alone.
#[verifier::external_body]
pub(crate) fn parse(text: &str) -> (r: Result<Value, String>)
    ensures
        match r {
            Ok(v) => parsed(text@) == Ok::<Json, Seq<char>>(json_in(v)),
            Err(w) => parsed(text@) == Err::<Json, Seq<char>>(w@),
        },
{
    serde_json::from_str::<Value>(text).map_err(|e| e.to_string())
}

/// Calls `Value::as_u64`. Claimed of it: it gives a number that is an unsigned
/// integer of 64 bits.
#[verifier::external_body]
pub(crate) fn number(v: &Value) -> (n: Option<u64>)
    ensures
        n == number_in(json_in(*v)),
{
    v.as_u64()
}

/// Calls `Value::as_str`. Claimed of it: it gives a text.
#[verifier::external_body]
pub(crate) fn string(v: &Value) -> (s: Option<String>)
    ensures
        match s {
            Some(t) => json_in(*v) == Json::Text(t@),
            None => text_in(json_in(*v)) is None,
        },
{
    v.as_str().map(|t| t.to_string())
}

/// Calls `Value::as_array`. Claimed of it: it gives a list.
#[verifier::external_body]
pub(crate) fn list(v: &Value) -> (l: Option<&Vec<Value>>)
    ensures
        match l {
            Some(items) => json_in(*v) == Json::List(values_in(items@)),
            None => list_in(json_in(*v)) is None,
        },
{
    v.as_array()
}

/// Calls `Value::as_object` and walks the map. Claimed of it: it gives the members
/// in order.
#[verifier::external_body]
pub(crate) fn members(v: &Value) -> (l: Option<Vec<(String, Value)>>)
    ensures
        match l {
            Some(items) => json_in(*v) == Json::Members(members_in(items@)),
            None => !(json_in(*v) is Members),
        },
{
    v.as_object().map(|m| m.iter().map(|(k, x)| (k.clone(), x.clone())).collect())
}

/// Calls `Value::index` with a name. Claimed of it: it gives the member of that
/// name, and `null` where there is none or the value is no object.
#[verifier::external_body]
pub(crate) fn field<'a>(v: &'a Value, name: &str) -> (x: &'a Value)
    ensures
        json_in(*x) == member(json_in(*v), name@),
{
    &v[name]
}

/// The texts in a list; words where the value is no list, and others where an item
/// is no text.
pub open spec fn strings_in(v: Json, missing: Seq<char>, wrong: Seq<char>) -> Result<Seq<Seq<char>>, Seq<char>> {
    match list_in(v) {
        Some(items) => if forall|i: int| 0 <= i < items.len() ==> text_in(#[trigger] items[i]) is Some {
            Ok(items.map_values(|x: Json| text_in(x)->0))
        } else {
            Err(wrong)
        },
        None => Err(missing),
    }
}

/// Reads the texts in a list.
pub fn read_strings(v: &Value, missing: &str, wrong: &str) -> (r: Result<Vec<String>, String>)
    ensures
        match r {
            Ok(out) => strings_in(json_in(*v), missing@, wrong@) == Ok::<Seq<Seq<char>>, Seq<char>>(text::texts(out@)),
            Err(w) => strings_in(json_in(*v), missing@, wrong@) == Err::<Seq<Seq<char>>, Seq<char>>(w@),
        },
{
    let items = match list(v) {
        Some(items) => items,
        None => {
            return Err(text::copy_str(missing));
        },
    };
    let ghost all = values_in(items@);
    let mut out: Vec<String> = Vec::new();
    let mut i: usize = 0;
    while i < items.len()
        invariant
            i <= items@.len(),
            all == values_in(items@),
            json_in(*v) == Json::List(all),
            out@.len() == i,
            forall|j: int| 0 <= j < i ==> #[trigger] all[j] == Json::Text(out@[j]@),
        decreases items.len() - i,
    {
        match string(&items[i]) {
            Some(s) => {
                proof {
                    assert(all[i as int] == json_in(items@[i as int]));
                }
                out.push(s);
            },
            None => {
                proof {
                    assert(text_in(all[i as int]) is None);
                }
                return Err(text::copy_str(wrong));
            },
        }
        i = i + 1;
    }
    proof {
        assert(all.map_values(|x: Json| text_in(x)->0) =~= text::texts(out@));
    }
    Ok(out)
}

/// A member is the value that stands under its name; where no member has the name, or
/// the value has no members, there is nothing.
pub proof fn member_law(list: Seq<(Seq<char>, Json)>, name: Seq<char>, i: int)
    requires
        0 <= i < list.len(),
        forall|j: int, k: int| 0 <= j < list.len() && 0 <= k < list.len() && #[trigger] list[j].0 == #[trigger] list[k].0 ==> j == k,
    ensures
        member(Json::Members(list), list[i].0) == list[i].1,
        (forall|j: int| 0 <= j < list.len() ==> #[trigger] list[j].0 != name) ==> member(Json::Members(list), name) is Null,
{
    let j = choose|j: int| 0 <= j < list.len() && (#[trigger] list[j]).0 == list[i].0;
    assert(list[i].0 == list[i].0);
    assert(list[j].0 == list[i].0);
}

/// A value is read as a list of texts exactly where it is a list of texts, and then as
/// those texts, in order.
pub proof fn strings_law(v: Json, words: Seq<Seq<char>>, missing: Seq<char>, wrong: Seq<char>)
    ensures
        strings_in(v, missing, wrong) == Ok::<Seq<Seq<char>>, Seq<char>>(words) <==> {
            v matches Json::List(items) && items.len() == words.len() && forall|i: int|
                0 <= i < words.len() ==> #[trigger] items[i] == Json::Text(words[i])
        },
        v !is List ==> strings_in(v, missing, wrong) == Err::<Seq<Seq<char>>, Seq<char>>(missing),
{
    if v is List {
        let items = v->List_0;
        if strings_in(v, missing, wrong) == Ok::<Seq<Seq<char>>, Seq<char>>(words) {
            assert forall|i: int| 0 <= i < words.len() implies #[trigger] items[i] == Json::Text(words[i]) by {
                assert(text_in(items[i]) is Some);
                assert(words[i] == text_in(items[i])->0);
            }
        }
        if items.len() == words.len() && forall|i: int| 0 <= i < words.len() ==> #[trigger] items[i] == Json::Text(words[i]) {
            assert(items.map_values(|x: Json| text_in(x)->0) =~= words);
        }
    }
}

} // verus!
