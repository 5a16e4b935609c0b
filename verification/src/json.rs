//! The boundary to `serde_json`: JSON documents as mathematical values, and
//! the calls that parse, print, read and build a `serde_json::Value`.
//!
//! Nothing in this file is proved. Each contract restates what the source of
//! `serde_json` shows of the one function that the item calls, for the crate
//! built with its default features: an object is then a map sorted by key,
//! and a number is an unsigned integer, a negative integer or a finite float.

use vstd::prelude::*;

verus! {

/// A JSON document as a mathematical value. An object is a finite map from
/// keys to documents. `Natural` is a number that `serde_json` holds as an
/// unsigned 64-bit integer; every other number (negative or fractional) is an
/// `OtherNumber`, told apart by a code that nothing here interprets.
pub enum JsonDoc {
    Null,
    Bool(bool),
    Natural(u64),
    OtherNumber(int),
    Text(Seq<char>),
    Array(Seq<JsonDoc>),
    Object(Map<Seq<char>, JsonDoc>),
}

/// `serde_json::Value`, a JSON document in memory. Opaque here: what it
/// holds is spoken of through `document`.
#[verifier::external_type_specification]
#[verifier::external_body]
pub struct ExValue(serde_json::Value);

/// `serde_json::Error`, the reason for which a text is no JSON document.
#[verifier::external_type_specification]
#[verifier::external_body]
pub struct ExError(serde_json::Error);

/// The document that a `serde_json::Value` holds.
pub uninterp spec fn document(v: serde_json::Value) -> JsonDoc;

/// The document that `serde_json::from_str` reads from a text, `None` where
/// it reports an error.
pub uninterp spec fn parsed_document(text: Seq<char>) -> Option<JsonDoc>;

/// The text that `serde_json::to_string` prints for a document, `None` where
/// it reports an error.
pub uninterp spec fn rendered_text(doc: JsonDoc) -> Option<Seq<char>>;

/// The documents that a sequence of values holds, one by one.
pub open spec fn documents(vs: Seq<serde_json::Value>) -> Seq<JsonDoc> {
    vs.map_values(|v: serde_json::Value| document(v))
}

/// No two of the fields have the same key.
pub open spec fn distinct_keys(fields: Seq<(String, serde_json::Value)>) -> bool {
    forall|i: int, j: int|
        0 <= i < j < fields.len() ==> (#[trigger] fields[i]).0@ != (#[trigger] fields[j]).0@
}

/// `doc` is the object of exactly the fields: it has their keys and no
/// others, each with the document of its value.
pub open spec fn is_object_of(doc: JsonDoc, fields: Seq<(String, serde_json::Value)>) -> bool {
    &&& doc matches JsonDoc::Object(m)
    &&& forall|k: Seq<char>|
        m.contains_key(k) <==> exists|i: int| 0 <= i < fields.len() && (#[trigger] fields[i]).0@ == k
    &&& forall|i: int|
        0 <= i < fields.len() ==> m[(#[trigger] fields[i]).0@] == document(fields[i].1)
}

/// `serde_json::from_str` at the type `serde_json::Value`: the value that
/// the text denotes, or the error. The result depends on the text alone.
#[verifier::external_body]
pub(crate) fn parse(text: &str) -> (r: Result<serde_json::Value, serde_json::Error>)
    ensures
        match r {
            Ok(v) => parsed_document(text@) == Some(document(v)),
            Err(_) => parsed_document(text@) is None,
        },
{
    serde_json::from_str::<serde_json::Value>(text)
}

/// `serde_json::to_string` on a `serde_json::Value`: the compact text of the
/// value, or the error. The result depends on the document alone.
#[verifier::external_body]
pub(crate) fn render(v: &serde_json::Value) -> (r: Result<String, serde_json::Error>)
    ensures
        match r {
            Ok(text) => rendered_text(document(*v)) == Some(text@),
            Err(_) => rendered_text(document(*v)) is None,
        },
{
    serde_json::to_string(v)
}

/// `serde_json::Value::as_array`: the elements of an array, `None` for every
/// other kind of value.
#[verifier::external_body]
pub(crate) fn items(v: &serde_json::Value) -> (r: Option<&Vec<serde_json::Value>>)
    ensures
        match r {
            Some(elements) => document(*v) == JsonDoc::Array(documents(elements@)),
            None => !(document(*v) is Array),
        },
{
    v.as_array()
}

/// `serde_json::Value::get` with a string index: the value under `key` in an
/// object that has the key, `None` for an object without it and for every
/// other kind of value.
#[verifier::external_body]
pub(crate) fn member<'a>(v: &'a serde_json::Value, key: &str) -> (r: Option<&'a serde_json::Value>)
    ensures
        match r {
            Some(found) => document(*v) matches JsonDoc::Object(fields) && fields.contains_key(key@)
                && fields[key@] == document(*found),
            None => !(document(*v) matches JsonDoc::Object(fields) && fields.contains_key(key@)),
        },
{
    v.get(key)
}

/// `serde_json::Value::as_str`: the content of a string, `None` for every
/// other kind of value.
#[verifier::external_body]
pub(crate) fn text<'a>(v: &'a serde_json::Value) -> (r: Option<&'a str>)
    ensures
        match r {
            Some(content) => document(*v) == JsonDoc::Text(content@),
            None => !(document(*v) is Text),
        },
{
    v.as_str()
}

/// `serde_json::Value::as_u64`: the number that is held as an unsigned
/// integer, `None` for every other number and every other kind of value.
#[verifier::external_body]
pub(crate) fn natural(v: &serde_json::Value) -> (r: Option<u64>)
    ensures
        match r {
            Some(n) => document(*v) == JsonDoc::Natural(n),
            None => !(document(*v) is Natural),
        },
{
    v.as_u64()
}

/// `serde_json::Value::from` on a `&str`: the string with that content.
#[verifier::external_body]
pub(crate) fn text_value(content: &str) -> (v: serde_json::Value)
    ensures
        document(v) == JsonDoc::Text(content@),
{
    serde_json::Value::from(content)
}

/// `serde_json::Value::from` on a `u64`: the number, held as an unsigned
/// integer.
#[verifier::external_body]
pub(crate) fn natural_value(n: u64) -> (v: serde_json::Value)
    ensures
        document(v) == JsonDoc::Natural(n),
{
    serde_json::Value::from(n)
}

/// `serde_json::Value::Array`: the array of the given elements, in their
/// order.
#[verifier::external_body]
pub(crate) fn array_value(elements: Vec<serde_json::Value>) -> (v: serde_json::Value)
    ensures
        document(v) == JsonDoc::Array(documents(elements@)),
{
    serde_json::Value::Array(elements)
}

/// `serde_json::Value::from_iter` on key-value pairs: the object of the given
/// fields. Claimed for pairwise distinct keys only: which of two values with
/// one key would stay is left to the map behind the object.
#[verifier::external_body]
pub(crate) fn object_value(fields: Vec<(String, serde_json::Value)>) -> (v: serde_json::Value)
    requires
        distinct_keys(fields@),
    ensures
        is_object_of(document(v), fields@),
{
    serde_json::Value::from_iter(fields)
}

} // verus!
