use crate::action_serialization::JsonTree;
use vstd::prelude::*;

verus! {

/// serde_json's document type, declared so the conversion helpers below
/// can pass values of it around. The library never looks inside one.
#[verifier::external_type_specification]
#[verifier::external_body]
pub struct ExValue(serde_json::Value);

/// The tree a string denotes as a JSON document, or `None` where the
/// string is not valid JSON. What `serde_json::from_str` accepts, and the
/// document it yields, depend on the characters alone, so the result has a
/// name here and the contracts speak of it.
pub uninterp spec fn json_tree_of(s: Seq<char>) -> Option<JsonTree>;

/// The JSON rendering of a tree. What `serde_json::Value::to_string`
/// prints depends on the document alone (serde_json's map keeps its keys
/// sorted), so the rendering is a function of the tree.
pub uninterp spec fn json_text_of(t: JsonTree) -> Seq<char>;

/// Converts a parsed document into the library's tree, one JSON value to
/// one node: objects become groups (entries in the map's order), booleans
/// become leaves, anything else keeps only its rendering.
#[verifier::external_body]
fn tree_of_value(v: serde_json::Value) -> JsonTree {
    match v {
        serde_json::Value::Bool(b) => JsonTree::Flag(b),
        serde_json::Value::Object(obj) => {
            let mut entries: Vec<(String, JsonTree)> = Vec::new();
            for (k, c) in obj {
                entries.push((k, tree_of_value(c)));
            }
            JsonTree::Group(entries)
        },
        other => JsonTree::Other(other.to_string()),
    }
}

/// Converts a tree back into a document, one node to one JSON value; a
/// rendering kept by an `Other` node goes back as a JSON string.
#[verifier::external_body]
fn value_of_tree(t: &JsonTree) -> serde_json::Value {
    match t {
        JsonTree::Flag(b) => serde_json::Value::Bool(*b),
        JsonTree::Group(es) => {
            let mut m = serde_json::Map::new();
            for (k, c) in es.iter() {
                m.insert(k.clone(), value_of_tree(c));
            }
            serde_json::Value::Object(m)
        },
        JsonTree::Other(s) => serde_json::Value::String(s.clone()),
    }
}

/// Relies on `serde_json::from_str::<Value>`: parses the string as JSON
/// and hands the document back as the library's tree; `None` iff the
/// string is not valid JSON.
#[verifier::external_body]
pub(crate) fn parse_json_tree(s: &str) -> (r: Option<JsonTree>)
    ensures
        r == json_tree_of(s@),
{
    match serde_json::from_str::<serde_json::Value>(s) {
        Ok(v) => Some(tree_of_value(v)),
        Err(_) => None,
    }
}

/// Relies on `serde_json::Value::to_string`: renders the tree as compact
/// JSON text.
#[verifier::external_body]
pub(crate) fn tree_json_string(t: &JsonTree) -> (r: String)
    ensures
        r@ == json_text_of(*t),
{
    value_of_tree(t).to_string()
}

} // verus!
