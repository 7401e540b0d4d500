//! The trusted surface toward serde_json: its value and error types
//! declared, and one wrapper per method the tileset decoder calls. A JSON
//! value is opaque to the verifier, so its structure is carried by
//! [`JsonShape`], a spec-level model, through two named results:
//! [`json_shape`], the shape a value has, and [`json_doc_of`], the shape the
//! parsed document of some bytes has. Each wrapper states its result over
//! these names, exactly as far as serde_json's source shows it.

use vstd::prelude::*;

verus! {

/// The shape of a JSON value, as far as the tileset decoder reads one:
/// strings, arrays and objects are told apart and carried; everything else
/// (null, booleans, numbers) is a scalar the decoder never looks into.
pub enum JsonShape {
    Scalar,
    Text(Seq<char>),
    Arr(Seq<JsonShape>),
    Obj(Map<Seq<char>, JsonShape>),
}

/// The shape of the JSON value `v`: the same value always has the same
/// shape, and the wrappers below say how serde_json's accessors answer for
/// each shape.
pub uninterp spec fn json_shape(v: serde_json::Value) -> JsonShape;

/// The shape of the document serde_json reads from the bytes, or nothing
/// where its parse rejects them (malformed text, or nesting past its
/// recursion limit); the outcome depends on the bytes alone.
pub uninterp spec fn json_doc_of(bytes: Seq<u8>) -> Option<JsonShape>;

/// serde_json's JSON value, declared so it can stand in signatures; the
/// verifier sees nothing inside it but [`json_shape`].
#[verifier::external_type_specification]
#[verifier::external_body]
pub struct ExValue(serde_json::Value);

/// serde_json's error type, declared so a failed parse can be told apart
/// from a successful one.
#[verifier::external_type_specification]
#[verifier::external_body]
pub struct ExError(serde_json::Error);

/// Relies on serde_json::from_slice: reads one JSON document from bytes,
/// failing exactly where its parse rejects them; the parse is a pure
/// function of the bytes.
#[verifier::external_body]
pub(crate) fn json_from_slice(bytes: &[u8]) -> (r: Result<serde_json::Value, serde_json::Error>)
    ensures
        (r is Ok <==> json_doc_of(bytes@) is Some),
        (r matches Ok(v) ==> Some(json_shape(v)) == json_doc_of(bytes@)),
{
    serde_json::from_slice(bytes)
}

/// Relies on serde_json::Value::get with a string index: the value under
/// this key exactly where `v` is an object that has the key, and `None`
/// otherwise.
#[verifier::external_body]
pub(crate) fn json_get<'a>(v: &'a serde_json::Value, key: &str) -> (r: Option<
    &'a serde_json::Value,
>)
    ensures
        (r is Some <==> (json_shape(*v) matches JsonShape::Obj(m) && m.dom().contains(key@))),
        (r matches Some(f) ==> (json_shape(*v) matches JsonShape::Obj(m) && json_shape(*f)
            == m[key@])),
{
    v.get(key)
}

/// Relies on serde_json::Value::as_array: the elements exactly where `v` is
/// an array, and `None` otherwise.
#[verifier::external_body]
pub(crate) fn json_as_array(v: &serde_json::Value) -> (r: Option<&Vec<serde_json::Value>>)
    ensures
        (r is Some <==> json_shape(*v) matches JsonShape::Arr(_)),
        (r matches Some(a) ==> (json_shape(*v) matches JsonShape::Arr(elems) && a@.map_values(
            |e: serde_json::Value| json_shape(e),
        ) == elems)),
{
    v.as_array()
}

/// Relies on serde_json::Value::as_str: the text exactly where `v` is a
/// string, and `None` otherwise; the text comes back as an owned copy.
#[verifier::external_body]
pub(crate) fn json_as_str(v: &serde_json::Value) -> (r: Option<String>)
    ensures
        (r is Some <==> json_shape(*v) matches JsonShape::Text(_)),
        (r matches Some(s) ==> (json_shape(*v) matches JsonShape::Text(t) && s@ == t)),
{
    match v.as_str() {
        Some(text) => Some(text.to_string()),
        None => None,
    }
}

} // verus!
