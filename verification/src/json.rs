//! JSON documents, read through `serde_json`.

use serde_json::Value;
use vstd::prelude::*;

verus! {

/// The document type of `serde_json`, taken as opaque.
#[verifier::external_type_specification]
#[verifier::external_body]
pub struct ExValue(serde_json::Value);

/// The error type of `serde_json`, taken as opaque.
#[verifier::external_type_specification]
#[verifier::external_body]
pub struct ExJsonError(serde_json::Error);

/// The content of a JSON document. A number is known by the unsigned integer of
/// 64 bits that it is, if it is one; an object by its entries in the order in
/// which they are walked.
pub enum JsonTree {
    Null,
    Bool(bool),
    Number(Option<u64>),
    Text(Seq<char>),
    Array(Seq<JsonTree>),
    Object(Seq<(Seq<char>, JsonTree)>),
}

/// The content of a document held by `serde_json`.
pub uninterp spec fn json_tree(value: serde_json::Value) -> JsonTree;

/// The content of the document that `serde_json::from_slice` reads from a byte
/// string, if it accepts it.
pub uninterp spec fn parsed_json(bytes: Seq<u8>) -> Option<JsonTree>;

/// The value of the first entry with the given key.
pub open spec fn entry_value(entries: Seq<(Seq<char>, JsonTree)>, key: Seq<char>) -> Option<
    JsonTree,
>
    decreases entries.len(),
{
    if entries.len() == 0 {
        None
    } else if entries[0].0 == key {
        Some(entries[0].1)
    } else {
        entry_value(entries.skip(1), key)
    }
}

/// The member of an object with the given key.
pub open spec fn member(tree: JsonTree, key: Seq<char>) -> Option<JsonTree> {
    match tree {
        JsonTree::Object(entries) => entry_value(entries, key),
        _ => None,
    }
}

/// The content of an optional document.
pub open spec fn tree_opt(value: Option<&serde_json::Value>) -> Option<JsonTree> {
    match value {
        Some(value) => Some(json_tree(*value)),
        None => None,
    }
}

/// `serde_json::from_slice` into a `Value`: whether it accepts the bytes, and the
/// document it reads from them, depend on the bytes alone.
#[verifier::external_body]
pub(crate) fn json_document(bytes: &[u8]) -> (res: Result<Value, serde_json::Error>)
    ensures
        match res {
            Ok(value) => parsed_json(bytes@) == Some(json_tree(value)),
            Err(_) => parsed_json(bytes@) is None,
        },
{
    serde_json::from_slice(bytes)
}

/// `Value::get` of `serde_json` with a string: the member of an object with that
/// key; none of anything else.
#[verifier::external_body]
pub(crate) fn json_member<'a>(value: &'a Value, key: &str) -> (res: Option<&'a Value>)
    ensures
        tree_opt(res) == member(json_tree(*value), key@),
{
    value.get(key)
}

/// `Value::as_array` of `serde_json`: the items of an array; none of anything
/// else.
#[verifier::external_body]
pub(crate) fn json_items(value: &Value) -> (res: Option<&Vec<Value>>)
    ensures
        match res {
            Some(items) => json_tree(*value) == JsonTree::Array(
                items@.map_values(|item: Value| json_tree(item)),
            ),
            None => !(json_tree(*value) is Array),
        },
{
    value.as_array()
}

/// `Value::as_object` of `serde_json` and the walk over the map it gives: the
/// entries of an object, in the order of the walk; none of anything else.
#[verifier::external_body]
pub(crate) fn json_entries(value: &Value) -> (res: Option<Vec<(&String, &Value)>>)
    ensures
        match res {
            Some(entries) => json_tree(*value) == JsonTree::Object(
                entries@.map_values(|entry: (&String, &Value)| (entry.0@, json_tree(*entry.1))),
            ),
            None => !(json_tree(*value) is Object),
        },
{
    value.as_object().map(|map| map.iter().collect())
}

/// `Value::as_str` of `serde_json`: the text of a string; none of anything else.
#[verifier::external_body]
pub(crate) fn json_text(value: &Value) -> (res: Option<&str>)
    ensures
        match res {
            Some(text) => json_tree(*value) == JsonTree::Text(text@),
            None => !(json_tree(*value) is Text),
        },
{
    value.as_str()
}

/// `Value::as_u64` of `serde_json`: the number, if it is an unsigned integer of
/// 64 bits; none of anything else.
#[verifier::external_body]
pub(crate) fn json_number(value: &Value) -> (res: Option<u64>)
    ensures
        match res {
            Some(number) => json_tree(*value) == JsonTree::Number(Some(number)),
            None => !(json_tree(*value) is Number) || json_tree(*value) == JsonTree::Number(None),
        },
{
    value.as_u64()
}

/// The member of an object is the value of the first entry with its key; where no
/// entry has the key, and in anything but an object, there is none.
pub proof fn law_member(entries: Seq<(Seq<char>, JsonTree)>, key: Seq<char>, i: int)
    requires
        0 <= i <= entries.len(),
        forall|j: int| 0 <= j < i ==> (#[trigger] entries[j]).0 != key,
    ensures
        i < entries.len() && entries[i].0 == key ==> member(JsonTree::Object(entries), key)
            == Some(entries[i].1),
        i == entries.len() ==> member(JsonTree::Object(entries), key) is None,
        forall|tree: JsonTree| !(tree is Object) ==> #[trigger] member(tree, key) is None,
    decreases i,
{
    if i > 0 {
        assert(entries[0].0 != key);
        let rest = entries.skip(1);
        assert forall|j: int| 0 <= j < i - 1 implies (#[trigger] rest[j]).0 != key by {
            assert(rest[j] == entries[j + 1]);
        }
        law_member(rest, key, i - 1);
        assert(member(JsonTree::Object(entries), key) == member(JsonTree::Object(rest), key));
    }
}

} // verus!
