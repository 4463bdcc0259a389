//! JSON documents as `serde_json` holds them, and the mathematical value that
//! each of them stands for.

use vstd::prelude::*;

verus! {

/// The value of a JSON number: an integer, or the bits of a 64-bit float.
pub enum JsonNumber {
    Integer(int),
    Float(u64),
}

/// A JSON value. The members of an object have no order.
#[verifier::ext_equal]
pub enum Json {
    Null,
    Bool(bool),
    Number(JsonNumber),
    Text(Seq<char>),
    Array(Seq<Json>),
    Object(Map<Seq<char>, Json>),
}

/// The members of a JSON object.
pub type Members = Map<Seq<char>, Json>;

/// The JSON object that `serde_json` hands out and takes back.
pub type JsonObject = serde_json::Map<String, serde_json::Value>;

/// Makes `serde_json::Value` known to the verifier, as an opaque type.
#[verifier::external_type_specification]
#[verifier::external_body]
pub struct ExValue(serde_json::Value);

/// Makes `serde_json::Number` known to the verifier, as an opaque type.
#[verifier::external_type_specification]
#[verifier::external_body]
pub struct ExNumber(serde_json::Number);

/// Makes `serde_json::Map` known to the verifier, as an opaque type.
#[verifier::external_type_specification]
#[verifier::external_body]
#[verifier::reject_recursive_types(K)]
#[verifier::reject_recursive_types(V)]
pub struct ExMap<K, V>(serde_json::Map<K, V>);

/// Makes `serde_json::Error` known to the verifier, as an opaque type.
#[verifier::external_type_specification]
#[verifier::external_body]
pub struct ExError(serde_json::Error);

/// The JSON value that a `serde_json::Value` holds.
pub uninterp spec fn json_of(value: serde_json::Value) -> Json;

/// The number that a `serde_json::Number` holds.
pub uninterp spec fn number_of(number: serde_json::Number) -> JsonNumber;

/// The members that a `serde_json::Map` holds.
pub uninterp spec fn members_of(object: serde_json::Map<String, serde_json::Value>) -> Members;

/// The variants of `serde_json::Value`, with what each of them holds.
pub enum Shape<'a> {
    Null,
    Bool(bool),
    Number(&'a serde_json::Number),
    Text(&'a String),
    Array(&'a Vec<serde_json::Value>),
    Object(&'a JsonObject),
}

/// The JSON value that a shape stands for.
pub open spec fn shape_json(shape: Shape<'_>) -> Json {
    match shape {
        Shape::Null => Json::Null,
        Shape::Bool(b) => Json::Bool(b),
        Shape::Number(n) => Json::Number(number_of(*n)),
        Shape::Text(s) => Json::Text(s@),
        Shape::Array(a) => Json::Array(a@.map_values(|v: serde_json::Value| json_of(v))),
        Shape::Object(m) => Json::Object(members_of(*m)),
    }
}

/// Tells the variants of `serde_json::Value` apart, and lends out the contents
/// of the one that is there.
#[verifier::external_body]
pub(crate) fn shape_of<'a>(value: &'a serde_json::Value) -> (shape: Shape<'a>)
    ensures
        json_of(*value) == shape_json(shape),
{
    match value {
        serde_json::Value::Null => Shape::Null,
        serde_json::Value::Bool(b) => Shape::Bool(*b),
        serde_json::Value::Number(n) => Shape::Number(n),
        serde_json::Value::String(s) => Shape::Text(s),
        serde_json::Value::Array(a) => Shape::Array(a),
        serde_json::Value::Object(m) => Shape::Object(m),
    }
}

/// `serde_json::Number::as_i128`: the value of an integer, and `None` for a
/// float. Without arbitrary precision every integer that a `Number` holds fits.
#[verifier::external_body]
pub(crate) fn number_as_i128(number: &serde_json::Number) -> (integer: Option<i128>)
    ensures
        match integer {
            Some(i) => number_of(*number) == JsonNumber::Integer(i as int),
            None => number_of(*number) is Float,
        },
{
    number.as_i128()
}

/// `serde_json::Map::iter`: lends out every member, and nothing else.
#[verifier::external_body]
pub(crate) fn object_entries<'a>(object: &'a JsonObject) -> (entries: Vec<(&'a String, &'a serde_json::Value)>)
    ensures
        forall|i: int|
            #![trigger entries@[i]]
            0 <= i < entries@.len() ==> members_of(*object).contains_key(entries@[i].0@)
                && members_of(*object)[entries@[i].0@] == json_of(*entries@[i].1),
        forall|key: Seq<char>|
            #![trigger members_of(*object).contains_key(key)]
            members_of(*object).contains_key(key) ==> exists|i: int|
                0 <= i < entries@.len() && (#[trigger] entries@[i]).0@ == key,
{
    object.iter().collect()
}

/// `serde_json::Map::get`: the member of that name, if there is one.
#[verifier::external_body]
pub(crate) fn object_get<'a>(object: &'a JsonObject, key: &str) -> (value: Option<&'a serde_json::Value>)
    ensures
        match value {
            Some(v) => members_of(*object).contains_key(key@) && members_of(*object)[key@] == json_of(*v),
            None => !members_of(*object).contains_key(key@),
        },
{
    object.get(key)
}

/// `serde_json::Map::get_mut`: the member of that name, if there is one, for the
/// caller to change. The other members stay as they are.
#[verifier::external_body]
pub(crate) fn object_get_mut<'a>(object: &'a mut JsonObject, key: &str) -> (value: Option<&'a mut serde_json::Value>)
    ensures
        match value {
            Some(v) => members_of(*old(object)).contains_key(key@)
                && json_of(*v) == members_of(*old(object))[key@]
                && members_of(*final(object)) == members_of(*old(object)).insert(key@, json_of(*final(v))),
            None => !members_of(*old(object)).contains_key(key@)
                && members_of(*final(object)) == members_of(*old(object)),
        },
{
    object.get_mut(key)
}

/// `serde_json::Value::as_object_mut`: the object that the value is, if it is
/// one, for the caller to change. Any other value stays as it is.
#[verifier::external_body]
pub(crate) fn value_as_object_mut<'a>(value: &'a mut serde_json::Value) -> (object: Option<&'a mut JsonObject>)
    ensures
        match object {
            Some(m) => json_of(*old(value)) == Json::Object(members_of(*m))
                && json_of(*final(value)) == Json::Object(members_of(*final(m))),
            None => json_of(*old(value)) !is Object && json_of(*final(value)) == json_of(*old(value)),
        },
{
    value.as_object_mut()
}

/// `serde_json::Map::remove`: takes the member of that name out, and hands it
/// back if there was one.
#[verifier::external_body]
pub(crate) fn object_remove(object: &mut JsonObject, key: &str) -> (value: Option<serde_json::Value>)
    ensures
        members_of(*final(object)) == members_of(*old(object)).remove(key@),
        match value {
            Some(v) => members_of(*old(object)).contains_key(key@)
                && members_of(*old(object))[key@] == json_of(v),
            None => !members_of(*old(object)).contains_key(key@),
        },
{
    object.remove(key)
}

/// `serde_json::Map::new`: an object without members.
pub assume_specification[ serde_json::Map::<String, serde_json::Value>::new ]() -> (object: serde_json::Map<String, serde_json::Value>)
    ensures
        members_of(object) == Members::empty(),
;

/// `serde_json::Map::insert`: gives the object this member, in place of the one
/// of that name if there was one, which is handed back.
pub assume_specification[ serde_json::Map::<String, serde_json::Value>::insert ](
    object: &mut serde_json::Map<String, serde_json::Value>,
    key: String,
    value: serde_json::Value,
) -> (previous: Option<serde_json::Value>)
    ensures
        members_of(*final(object)) == members_of(*old(object)).insert(key@, json_of(value)),
        match previous {
            Some(v) => members_of(*old(object)).contains_key(key@)
                && members_of(*old(object))[key@] == json_of(v),
            None => !members_of(*old(object)).contains_key(key@),
        },
;

/// The clone of a `serde_json::Map` has the same members.
pub assume_specification[ <serde_json::Map<String, serde_json::Value> as Clone>::clone ](
    object: &serde_json::Map<String, serde_json::Value>,
) -> (copy: serde_json::Map<String, serde_json::Value>)
    ensures
        members_of(copy) == members_of(*object),
;

/// Wraps a string as `serde_json::Value::String`.
#[verifier::external_body]
pub(crate) fn text_value(text: String) -> (value: serde_json::Value)
    ensures
        json_of(value) == Json::Text(text@),
{
    serde_json::Value::String(text)
}

/// Wraps an object as `serde_json::Value::Object`.
#[verifier::external_body]
pub(crate) fn object_value(object: JsonObject) -> (value: serde_json::Value)
    ensures
        json_of(value) == Json::Object(members_of(object)),
{
    serde_json::Value::Object(object)
}

} // verus!
