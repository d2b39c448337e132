//! JSON documents as the `serde_json` crate reads them.

use serde_json::Value;
use vstd::prelude::*;

verus! {

/// What a JSON value holds. Of a number only its value as a `u64` is known, where
/// it has one.
pub ghost enum JsonShape {
    Null,
    Bool(bool),
    Number(Option<u64>),
    Text(Seq<char>),
    List(Seq<JsonShape>),
    Object(Seq<(Seq<char>, JsonShape)>),
}

/// A value of the `serde_json` crate.
#[verifier::external_type_specification]
#[verifier::external_body]
pub struct ExJsonValue(serde_json::Value);

/// What a `serde_json` value holds. The members of an object stand in the order
/// in which its map hands them out, which depends on the value alone.
pub uninterp spec fn json_shape(v: Value) -> JsonShape;

/// What `serde_json::from_slice` reads from bytes, `None` where they are no JSON
/// document.
pub uninterp spec fn json_of(bytes: Seq<u8>) -> Option<JsonShape>;

/// One layer of a `serde_json` value.
#[derive(Debug)]
pub enum JsonParts {
    Null,
    Bool(bool),
    Number(Option<u64>),
    Text(String),
    List(Vec<Value>),
    Object(Vec<(String, Value)>),
}

impl JsonParts {
    /// What the layer and everything below it holds.
    pub open spec fn shape(self) -> JsonShape {
        match self {
            JsonParts::Null => JsonShape::Null,
            JsonParts::Bool(b) => JsonShape::Bool(b),
            JsonParts::Number(n) => JsonShape::Number(n),
            JsonParts::Text(s) => JsonShape::Text(s@),
            JsonParts::List(v) => JsonShape::List(v@.map_values(|x: Value| json_shape(x))),
            JsonParts::Object(v) => JsonShape::Object(
                v@.map_values(|m: (String, Value)| (m.0@, json_shape(m.1))),
            ),
        }
    }
}

/// A JSON document.
#[derive(Debug)]
pub enum JsonDoc {
    Null,
    Bool(bool),
    Number(Option<u64>),
    Text(String),
    List(Vec<JsonDoc>),
    Object(Vec<(String, JsonDoc)>),
}

impl JsonDoc {
    /// What the document holds.
    pub open spec fn shape(self) -> JsonShape
        decreases self,
    {
        match self {
            JsonDoc::Null => JsonShape::Null,
            JsonDoc::Bool(b) => JsonShape::Bool(b),
            JsonDoc::Number(n) => JsonShape::Number(n),
            JsonDoc::Text(s) => JsonShape::Text(s@),
            JsonDoc::List(v) => JsonShape::List(
                Seq::new(
                    v@.len(),
                    |i: int|
                        if 0 <= i < v@.len() {
                            v@[i].shape()
                        } else {
                            JsonShape::Null
                        },
                ),
            ),
            JsonDoc::Object(v) => JsonShape::Object(
                Seq::new(
                    v@.len(),
                    |i: int|
                        if 0 <= i < v@.len() {
                            (v@[i].0@, v@[i].1.shape())
                        } else {
                            (Seq::empty(), JsonShape::Null)
                        },
                ),
            ),
        }
    }
}

/// Reads a JSON document (`serde_json::from_slice`).
#[verifier::external_body]
fn read_json(bytes: &[u8]) -> (r: Option<Value>)
    ensures
        match r {
            Some(v) => json_of(bytes@) == Some(json_shape(v)),
            None => json_of(bytes@) is None,
        },
{
    serde_json::from_slice(bytes).ok()
}

/// Takes a `serde_json::Value` apart, variant for variant; of a number it takes
/// `Number::as_u64`.
#[verifier::external_body]
fn json_parts(v: Value) -> (r: JsonParts)
    ensures
        r.shape() == json_shape(v),
{
    match v {
        Value::Null => JsonParts::Null,
        Value::Bool(b) => JsonParts::Bool(b),
        Value::Number(n) => JsonParts::Number(n.as_u64()),
        Value::String(s) => JsonParts::Text(s),
        Value::Array(v) => JsonParts::List(v),
        Value::Object(m) => JsonParts::Object(m.into_iter().collect()),
    }
}

fn to_doc(v: Value) -> (r: JsonDoc)
    ensures
        r.shape() == json_shape(v),
    decreases json_shape(v),
{
    let parts: JsonParts = json_parts(v);
    let ghost shape = json_shape(v);
    match parts {
        JsonParts::Null => JsonDoc::Null,
        JsonParts::Bool(b) => JsonDoc::Bool(b),
        JsonParts::Number(n) => JsonDoc::Number(n),
        JsonParts::Text(s) => JsonDoc::Text(s),
        JsonParts::List(items) => {
            let ghost all = items@;
            let ghost shapes = shape->List_0;
            let mut out: Vec<JsonDoc> = Vec::new();
            for item in it: items
                invariant
                    it.seq() == all,
                    shape == JsonShape::List(shapes),
                    shape == json_shape(v),
                    shapes == all.map_values(|x: Value| json_shape(x)),
                    out.len() == it.index(),
                    forall|k: int| 0 <= k < out.len() ==> (#[trigger] out@[k]).shape() == shapes[k],
            {
                let ghost k = it.index() as int;
                assert(shapes[k] == json_shape(item));
                assert(decreases_to!(shape => shape->List_0));
                assert(decreases_to!(shapes => shapes[k]));
                out.push(to_doc(item));
            }
            let r: JsonDoc = JsonDoc::List(out);
            assert(r.shape()->List_0 =~= shapes);
            r
        },
        JsonParts::Object(members) => {
            let ghost all = members@;
            let ghost shapes = shape->Object_0;
            let mut out: Vec<(String, JsonDoc)> = Vec::new();
            for member in it: members
                invariant
                    it.seq() == all,
                    shape == JsonShape::Object(shapes),
                    shape == json_shape(v),
                    shapes == all.map_values(|m: (String, Value)| (m.0@, json_shape(m.1))),
                    out.len() == it.index(),
                    forall|k: int|
                        0 <= k < out.len() ==> (#[trigger] out@[k]).0@ == shapes[k].0
                            && out@[k].1.shape() == shapes[k].1,
            {
                let ghost k = it.index() as int;
                let (name, value) = member;
                assert(shapes[k] == (name@, json_shape(value)));
                assert(decreases_to!(shape => shape->Object_0));
                assert(decreases_to!(shapes => shapes[k]));
                assert(decreases_to!(shapes[k] => shapes[k].1));
                out.push((name, to_doc(value)));
            }
            let r: JsonDoc = JsonDoc::Object(out);
            assert(r.shape()->Object_0 =~= shapes);
            r
        },
    }
}

/// The JSON document in bytes, if they hold one.
pub fn parse_json(bytes: &[u8]) -> (r: Option<JsonDoc>)
    ensures
        match r {
            Some(d) => json_of(bytes@) == Some(d.shape()),
            None => json_of(bytes@) is None,
        },
{
    match read_json(bytes) {
        Some(v) => Some(to_doc(v)),
        None => None,
    }
}

} // verus!
