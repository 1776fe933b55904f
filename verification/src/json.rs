//! Read access to JSON documents (serde_json). A document is modelled as
//! the map from each node's path (object keys and array indices from the
//! root) to what the node is; the accessors are stated over that model, and
//! the logic that reads documents is verified over it.

use serde_json::Value;
use vstd::prelude::*;

use crate::rpc::opt_view;

verus! {

/// `serde_json::Value`, opaque; its content is [`json_nodes`].
#[verifier::external_type_specification]
#[verifier::external_body]
pub struct ExValue(Value);

/// One step from a JSON node to a child: an object key or an array index.
pub enum JsonStep {
    Key(Seq<char>),
    Index(nat),
}

/// What one JSON node is: for a number, what `as_u64` and `as_i64` give;
/// for an array, its length (its elements are nodes of their own).
pub enum JsonNode {
    Null,
    Bool(bool),
    Number { as_u64: Option<u64>, as_i64: Option<i64> },
    Str(Seq<char>),
    Array(nat),
    Object,
}

/// A JSON document as the map from node paths to nodes.
pub type JsonModel = Map<Seq<JsonStep>, JsonNode>;

/// What a `serde_json::Value` holds: every node of it, by its path from the
/// value itself (the empty path).
pub uninterp spec fn json_nodes(v: Value) -> Map<Seq<JsonStep>, JsonNode>;

/// The document `serde_json::from_slice::<Value>` parses from `bytes`, or
/// `None` when they are not JSON.
pub uninterp spec fn json_doc(bytes: Seq<u8>) -> Option<Map<Seq<JsonStep>, JsonNode>>;

/// The node at the root of a document, if any.
pub open spec fn json_root(m: JsonModel) -> Option<JsonNode> {
    if m.contains_key(Seq::empty()) {
        Some(m[Seq::empty()])
    } else {
        None
    }
}

/// The part of a document under the child reached by `step`.
pub open spec fn json_child(m: JsonModel, step: JsonStep) -> JsonModel {
    Map::new(|p: Seq<JsonStep>| m.contains_key(seq![step] + p), |p: Seq<JsonStep>| m[seq![step] + p])
}

/// `Value::get(key)`: the member `key` of an object.
pub open spec fn json_get_spec(m: JsonModel, key: Seq<char>) -> Option<JsonModel> {
    if json_root(m) == Some(JsonNode::Object) && m.contains_key(seq![JsonStep::Key(key)]) {
        Some(json_child(m, JsonStep::Key(key)))
    } else {
        None
    }
}

/// The part of a document reached through the object keys `keys`.
pub open spec fn json_at_path(m: JsonModel, keys: Seq<Seq<char>>) -> Option<JsonModel>
    decreases keys.len(),
{
    if keys.len() == 0 {
        Some(m)
    } else {
        match json_get_spec(m, keys[0]) {
            Some(c) => json_at_path(c, keys.skip(1)),
            None => None,
        }
    }
}

/// `Value::as_str`.
pub open spec fn json_str_of(m: JsonModel) -> Option<Seq<char>> {
    match json_root(m) {
        Some(JsonNode::Str(s)) => Some(s),
        _ => None,
    }
}

/// `Value::as_u64`.
pub open spec fn json_u64_of(m: JsonModel) -> Option<u64> {
    match json_root(m) {
        Some(JsonNode::Number { as_u64, as_i64 }) => as_u64,
        _ => None,
    }
}

/// `Value::as_i64`.
pub open spec fn json_i64_of(m: JsonModel) -> Option<i64> {
    match json_root(m) {
        Some(JsonNode::Number { as_u64, as_i64 }) => as_i64,
        _ => None,
    }
}

/// The string at the object-key path `keys`.
pub open spec fn json_str_at(m: JsonModel, keys: Seq<Seq<char>>) -> Option<Seq<char>> {
    match json_at_path(m, keys) {
        Some(c) => json_str_of(c),
        None => None,
    }
}

/// The unsigned integer at the object-key path `keys`.
pub open spec fn json_u64_at(m: JsonModel, keys: Seq<Seq<char>>) -> Option<u64> {
    match json_at_path(m, keys) {
        Some(c) => json_u64_of(c),
        None => None,
    }
}

/// The signed integer at the object-key path `keys`.
pub open spec fn json_i64_at(m: JsonModel, keys: Seq<Seq<char>>) -> Option<i64> {
    match json_at_path(m, keys) {
        Some(c) => json_i64_of(c),
        None => None,
    }
}

/// The views of a slice of keys.
pub open spec fn key_views(keys: Seq<&str>) -> Seq<Seq<char>> {
    keys.map_values(|k: &str| k@)
}

/// Calls `serde_json::from_slice::<Value>`: `Some` exactly when
/// [`json_doc`] of the bytes is, holding that document.
#[verifier::external_body]
pub(crate) fn json_parse(bytes: &[u8]) -> (r: Option<Value>)
    ensures
        match r {
            Some(v) => json_doc(bytes@) == Some(json_nodes(v)),
            None => json_doc(bytes@) is None,
        },
{
    serde_json::from_slice::<Value>(bytes).ok()
}

/// Calls `Value::get` with an object key: the member when `v` is an object
/// that has the key, else `None`.
#[verifier::external_body]
pub(crate) fn json_get<'a>(v: &'a Value, key: &str) -> (r: Option<&'a Value>)
    ensures
        match r {
            Some(c) => json_get_spec(json_nodes(*v), key@) == Some(json_nodes(*c)),
            None => json_get_spec(json_nodes(*v), key@) is None,
        },
{
    v.get(key)
}

/// Calls `Value::as_str` and owns the text: the text of a string value.
#[verifier::external_body]
pub(crate) fn json_as_str(v: &Value) -> (r: Option<String>)
    ensures
        match r {
            Some(s) => json_str_of(json_nodes(*v)) == Some(s@),
            None => json_str_of(json_nodes(*v)) is None,
        },
{
    v.as_str().map(|s| s.to_owned())
}

/// Calls `Value::as_u64`: the number's `as_u64` for a number value.
#[verifier::external_body]
pub(crate) fn json_as_u64(v: &Value) -> (r: Option<u64>)
    ensures
        r == json_u64_of(json_nodes(*v)),
{
    v.as_u64()
}

/// Calls `Value::as_i64`: the number's `as_i64` for a number value.
#[verifier::external_body]
pub(crate) fn json_as_i64(v: &Value) -> (r: Option<i64>)
    ensures
        r == json_i64_of(json_nodes(*v)),
{
    v.as_i64()
}

/// Calls `Value::as_array` and owns (clones) the elements: for an array,
/// its elements in order, each the part of the document at its index.
#[verifier::external_body]
pub(crate) fn json_array(v: &Value) -> (r: Option<Vec<Value>>)
    ensures
        match r {
            Some(items) => json_root(json_nodes(*v)) == Some(JsonNode::Array(items@.len()))
                && forall|i: int| 0 <= i < items@.len() ==> json_nodes(#[trigger] items@[i]) == json_child(
                json_nodes(*v),
                JsonStep::Index(i as nat),
            ),
            None => !(json_root(json_nodes(*v)) matches Some(JsonNode::Array(_))),
        },
{
    v.as_array().cloned()
}

/// The part of `v` reached through the object keys `keys`.
pub fn json_path<'a>(v: &'a Value, keys: &[&str]) -> (r: Option<&'a Value>)
    ensures
        match r {
            Some(c) => json_at_path(json_nodes(*v), key_views(keys@)) == Some(json_nodes(*c)),
            None => json_at_path(json_nodes(*v), key_views(keys@)) is None,
        },
{
    let ghost ks = key_views(keys@);
    let mut cur: &Value = v;
    let mut i: usize = 0;
    assert(ks.skip(0) =~= ks);
    while i < keys.len()
        invariant
            0 <= i <= keys@.len(),
            ks == key_views(keys@),
            json_at_path(json_nodes(*v), ks) == json_at_path(json_nodes(*cur), ks.skip(i as int)),
        decreases keys@.len() - i,
    {
        let ghost rest = ks.skip(i as int);
        assert(rest[0] == keys@[i as int]@);
        assert(rest.skip(1) =~= ks.skip(i as int + 1));
        match json_get(cur, keys[i]) {
            Some(next) => {
                cur = next;
            },
            None => {
                return None;
            },
        }
        i = i + 1;
    }
    assert(ks.skip(i as int).len() == 0);
    Some(cur)
}

/// The string at `v[k1][k2]...` (`None` when a key is missing or the value
/// is not a string).
pub fn json_str_path(v: &Value, keys: &[&str]) -> (r: Option<String>)
    ensures
        opt_view(r) == json_str_at(json_nodes(*v), key_views(keys@)),
{
    match json_path(v, keys) {
        Some(c) => json_as_str(c),
        None => None,
    }
}

/// The unsigned integer at `v[k1][k2]...`.
pub fn json_u64_path(v: &Value, keys: &[&str]) -> (r: Option<u64>)
    ensures
        r == json_u64_at(json_nodes(*v), key_views(keys@)),
{
    match json_path(v, keys) {
        Some(c) => json_as_u64(c),
        None => None,
    }
}

} // verus!
