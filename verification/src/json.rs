//! JSON documents as `serde_json` reads them.

use vstd::prelude::*;

verus! {

/// A JSON value.
pub enum Json {
    Null,
    Bool(bool),
    /// A number: how it is written, and its value where it is a whole one.
    Number(Seq<char>, Option<int>),
    Text(Seq<char>),
    List(Seq<Json>),
    /// The members of an object, each with its name.
    Object(Seq<(Seq<char>, Json)>),
}

/// `serde_json::Value`, a JSON value in memory.
#[verifier::external_type_specification]
#[verifier::external_body]
pub struct ExValue(serde_json::Value);

/// What a `serde_json::Value` holds.
pub uninterp spec fn json_of(v: serde_json::Value) -> Json;

/// What `serde_json::from_str` reads from a text: the document, or the words of the error.
pub uninterp spec fn json_document(text: Seq<char>) -> Result<Json, Seq<char>>;

/// `serde_json::from_str` into a `Value`: the document that the text writes, or why it writes
/// none. Both depend on the text alone.
#[verifier::external_body]
pub(crate) fn parse_json(text: &str) -> (doc: Result<serde_json::Value, String>)
    ensures
        match doc {
            Ok(v) => json_document(text@) == Ok::<Json, Seq<char>>(json_of(v)),
            Err(e) => json_document(text@) == Err::<Json, Seq<char>>(e@),
        },
{
    serde_json::from_str(text).map_err(|e| e.to_string())
}

/// The first member of a name.
pub open spec fn member_among(members: Seq<(Seq<char>, Json)>, name: Seq<char>) -> Option<Json>
    decreases members.len(),
{
    if members.len() == 0 {
        None
    } else if members[0].0 == name {
        Some(members[0].1)
    } else {
        member_among(members.drop_first(), name)
    }
}

/// The member of a value with a name; none where it is no object or has no such member.
pub open spec fn member_of(j: Json, name: Seq<char>) -> Option<Json> {
    match j {
        Json::Object(members) => member_among(members, name),
        _ => None,
    }
}

/// The truth value of a value; none where it is something else.
pub open spec fn bool_of(j: Json) -> Option<bool> {
    match j {
        Json::Bool(b) => Some(b),
        _ => None,
    }
}

/// The text of a value; none where it is something else.
pub open spec fn text_of(j: Json) -> Option<Seq<char>> {
    match j {
        Json::Text(s) => Some(s),
        _ => None,
    }
}

/// The whole number of a value, where it is one in range.
pub open spec fn whole_of(j: Json) -> Option<int> {
    match j {
        Json::Number(_, Some(n)) if i64::MIN <= n <= i64::MAX => Some(n),
        _ => None,
    }
}

/// How the number of a value is written; none where it is something else.
pub open spec fn number_of(j: Json) -> Option<Seq<char>> {
    match j {
        Json::Number(s, _) => Some(s),
        _ => None,
    }
}

/// The items of a value; none where it is no list.
pub open spec fn items_of(j: Json) -> Option<Seq<Json>> {
    match j {
        Json::List(items) => Some(items),
        _ => None,
    }
}

/// The members of a value; none where it is no object.
pub open spec fn members_of(j: Json) -> Option<Seq<(Seq<char>, Json)>> {
    match j {
        Json::Object(members) => Some(members),
        _ => None,
    }
}

/// What an optional value holds.
pub open spec fn json_in(v: Option<&serde_json::Value>) -> Option<Json> {
    match v {
        Some(v) => Some(json_of(*v)),
        None => None,
    }
}

/// `serde_json::Value::get` with a name: the member of an object with that name. Names of an
/// object are distinct.
#[verifier::external_body]
pub(crate) fn member<'a>(v: &'a serde_json::Value, name: &str) -> (r: Option<&'a serde_json::Value>)
    ensures
        json_in(r) == member_of(json_of(*v), name@),
{
    v.get(name)
}

/// `serde_json::Value::as_bool`: the truth value, where it is one.
#[verifier::external_body]
pub(crate) fn as_bool(v: &serde_json::Value) -> (r: Option<bool>)
    ensures
        r == bool_of(json_of(*v)),
{
    v.as_bool()
}

/// `serde_json::Value::as_str`: the text, where it is one.
#[verifier::external_body]
pub(crate) fn as_text<'a>(v: &'a serde_json::Value) -> (r: Option<&'a str>)
    ensures
        match r {
            Some(s) => text_of(json_of(*v)) == Some(s@),
            None => text_of(json_of(*v)) is None,
        },
{
    v.as_str()
}

/// `serde_json::Value::as_i64`: the whole number, where it is one in range.
#[verifier::external_body]
pub(crate) fn as_whole(v: &serde_json::Value) -> (r: Option<i64>)
    ensures
        match r {
            Some(n) => whole_of(json_of(*v)) == Some(n as int),
            None => whole_of(json_of(*v)) is None,
        },
{
    v.as_i64()
}

/// `serde_json::Value::as_number`, written out: the number in decimal, where it is one.
#[verifier::external_body]
pub(crate) fn as_number(v: &serde_json::Value) -> (r: Option<String>)
    ensures
        match r {
            Some(s) => number_of(json_of(*v)) == Some(s@),
            None => number_of(json_of(*v)) is None,
        },
{
    v.as_number().map(|n| n.to_string())
}

/// What the items of a list hold.
pub open spec fn all_json(items: Seq<serde_json::Value>) -> Seq<Json> {
    Seq::new(items.len(), |i: int| json_of(items[i]))
}

/// `serde_json::Value::as_array`: the items in order, where it is a list.
#[verifier::external_body]
pub(crate) fn as_items<'a>(v: &'a serde_json::Value) -> (r: Option<&'a Vec<serde_json::Value>>)
    ensures
        match r {
            Some(items) => items_of(json_of(*v)) == Some(all_json(items@)),
            None => items_of(json_of(*v)) is None,
        },
{
    v.as_array()
}

/// Names and what the values beside them hold.
pub open spec fn all_members(list: Seq<(String, &serde_json::Value)>) -> Seq<(Seq<char>, Json)> {
    Seq::new(list.len(), |i: int| (list[i].0@, json_of(*list[i].1)))
}

/// `serde_json::Value::as_object`: the members in order, where it is an object.
#[verifier::external_body]
pub(crate) fn as_members<'a>(v: &'a serde_json::Value) -> (r: Option<
    Vec<(String, &'a serde_json::Value)>,
>)
    ensures
        match r {
            Some(list) => members_of(json_of(*v)) == Some(all_members(list@)),
            None => members_of(json_of(*v)) is None,
        },
{
    v.as_object().map(|m| m.iter().map(|(k, x)| (k.clone(), x)).collect())
}

} // verus!
