use vstd::prelude::*;

pub mod json_value;

use crate::json_enviroment::{flatten, JsonEnviroment, JsonIndex};
use crate::text::{trim, trimmed};
use crate::json_tree::{
    items_count, lemma_items_count_prefix, lemma_members_count_prefix, members_count, value_count,
    JsonLeaf, JsonTree,
};

verus! {

/// Counts the values of a document: the document itself and every value nested in it.
pub fn get_value_count(json: &JsonTree) -> (count: usize)
    requires
        value_count(*json) <= usize::MAX,
    ensures
        count == value_count(*json),
    decreases json,
{
    let mut counter: usize = 1;
    match json {
        JsonTree::Array(arr) => {
            let mut i: usize = 0;
            while i < arr.len()
                invariant
                    i <= arr.len(),
                    *json == JsonTree::Array(*arr),
                    value_count(*json) == 1 + items_count(arr@),
                    value_count(*json) <= usize::MAX,
                    counter == 1 + items_count(arr@.take(i as int)),
                decreases arr.len() - i,
            {
                proof {
                    lemma_items_count_prefix(arr@, i as int + 1);
                    assert(arr@.take(i as int + 1).drop_last() =~= arr@.take(i as int));
                }
                let c = get_value_count(&arr[i]);
                counter = counter + c;
                i = i + 1;
            }
            assert(arr@.take(arr.len() as int) =~= arr@);
        },
        JsonTree::Object(map) => {
            let mut i: usize = 0;
            while i < map.len()
                invariant
                    i <= map.len(),
                    *json == JsonTree::Object(*map),
                    value_count(*json) == 1 + members_count(map@),
                    value_count(*json) <= usize::MAX,
                    counter == 1 + members_count(map@.take(i as int)),
                decreases map.len() - i,
            {
                proof {
                    lemma_members_count_prefix(map@, i as int + 1);
                    assert(map@.take(i as int + 1).drop_last() =~= map@.take(i as int));
                }
                let c = get_value_count(&map[i].1);
                counter = counter + c;
                i = i + 1;
            }
            assert(map@.take(map.len() as int) =~= map@);
        },
        JsonTree::Leaf(_) => {},
    }
    counter
}

#[verifier::external_type_specification]
#[verifier::external_body]
pub struct ExValue(serde_json::Value);

/// The document that `serde_json` reads from a JSON text (`None` when the
/// text is not JSON), in the library's form: numbers by their text, object
/// members in the order of `serde_json`'s map.
pub uninterp spec fn json_document(text: Seq<char>) -> Option<JsonTree>;

/// The document that `serde_json` reads from the bytes of a JSON file (`None`
/// when they are not JSON), in the library's form.
pub uninterp spec fn json_bytes_document(bytes: Seq<u8>) -> Option<JsonTree>;

/// Converts a value that `serde_json` parsed into the library's form, one
/// value for one value: numbers by their `Display` text, arrays element by
/// element, objects member by member in the map's order.
#[verifier::external_body]
fn tree_of(value: serde_json::Value) -> JsonTree {
    match value {
        serde_json::Value::Null => JsonTree::Leaf(JsonLeaf::Null),
        serde_json::Value::Bool(b) => JsonTree::Leaf(JsonLeaf::Bool(b)),
        serde_json::Value::Number(n) => JsonTree::Leaf(JsonLeaf::Number(n.to_string())),
        serde_json::Value::String(s) => JsonTree::Leaf(JsonLeaf::String(s)),
        serde_json::Value::Array(items) => JsonTree::Array(items.into_iter().map(tree_of).collect()),
        serde_json::Value::Object(map) => JsonTree::Object(
            map.into_iter().map(|(k, v)| (k, tree_of(v))).collect(),
        ),
    }
}

/// Parses a JSON text with `serde_json::from_str` into a `serde_json::Value`
/// and converts it; the contract names the outcome, which the text decides.
#[verifier::external_body]
pub(crate) fn parse_json(text: &str) -> (doc: Option<JsonTree>)
    ensures
        doc == json_document(text@),
{
    serde_json::from_str::<serde_json::Value>(text).ok().map(tree_of)
}

#[verifier::external_type_specification]
#[verifier::external_body]
pub struct ExJsonError(serde_json::Error);

/// Parses the bytes of a JSON file with `serde_json::from_slice` into a
/// `serde_json::Value` and converts it, or gives `serde_json`'s error; the
/// contract names the document, which the bytes decide, and says nothing of
/// what the error holds.
#[verifier::external_body]
pub(crate) fn parse_json_bytes(bytes: &[u8]) -> (doc: Result<JsonTree, serde_json::Error>)
    ensures
        match doc {
            Ok(t) => json_bytes_document(bytes@) == Some(t),
            Err(_) => json_bytes_document(bytes@) is None,
        },
{
    serde_json::from_slice::<serde_json::Value>(bytes).map(tree_of)
}

/// Why a JSON file could not be read.
#[derive(Debug)]
pub enum ReadError {
    /// The bytes are not JSON; `serde_json`'s error says where and why.
    Json(serde_json::Error),
    /// The document has too many values to be counted with room to spare in a `usize`.
    TooManyValues,
}

/// The document that the text holds once trimmed, if it is JSON.
pub fn validate_json_value(json_text: &str) -> (doc: Option<JsonTree>)
    ensures
        doc == json_document(trimmed(json_text@)),
{
    parse_json(trim(json_text))
}

/// Whether a document read from a key edit is acceptable as a key: it is a string.
pub open spec fn is_key_document(doc: Option<JsonTree>) -> bool {
    doc matches Some(JsonTree::Leaf(JsonLeaf::String(_)))
}

/// Whether a document read from a key edit is a string.
pub fn key_document_accepted(doc: Option<JsonTree>) -> (ok: bool)
    ensures
        ok == is_key_document(doc),
{
    match doc {
        Some(JsonTree::Leaf(JsonLeaf::String(_))) => true,
        _ => false,
    }
}

/// Whether a key edit is acceptable: its text is blank, or it holds a JSON string.
pub fn valide_json_key(json_text: &str) -> (ok: bool)
    ensures
        ok == (trimmed(json_text@).len() == 0 || is_key_document(json_document(trimmed(json_text@)))),
{
    let text = trim(json_text);
    if text.is_empty() {
        return true;
    }
    key_document_accepted(parse_json(text))
}

/// Counts the values of a document like `get_value_count`; `None` when the
/// count does not fit in a `usize`.
pub fn checked_value_count(json: &JsonTree) -> (count: Option<usize>)
    ensures
        match count {
            Some(n) => n == value_count(*json),
            None => value_count(*json) > usize::MAX,
        },
    decreases json,
{
    let mut counter: usize = 1;
    match json {
        JsonTree::Array(arr) => {
            let mut i: usize = 0;
            while i < arr.len()
                invariant
                    i <= arr.len(),
                    *json == JsonTree::Array(*arr),
                    value_count(*json) == 1 + items_count(arr@),
                    counter == 1 + items_count(arr@.take(i as int)),
                decreases arr.len() - i,
            {
                proof {
                    lemma_items_count_prefix(arr@, i as int + 1);
                    assert(arr@.take(i as int + 1).drop_last() =~= arr@.take(i as int));
                }
                match checked_value_count(&arr[i]) {
                    Some(c) => match counter.checked_add(c) {
                        Some(sum) => counter = sum,
                        None => return None,
                    },
                    None => return None,
                }
                i = i + 1;
            }
            assert(arr@.take(arr.len() as int) =~= arr@);
        },
        JsonTree::Object(map) => {
            let mut i: usize = 0;
            while i < map.len()
                invariant
                    i <= map.len(),
                    *json == JsonTree::Object(*map),
                    value_count(*json) == 1 + members_count(map@),
                    counter == 1 + members_count(map@.take(i as int)),
                decreases map.len() - i,
            {
                proof {
                    lemma_members_count_prefix(map@, i as int + 1);
                    assert(map@.take(i as int + 1).drop_last() =~= map@.take(i as int));
                }
                match checked_value_count(&map[i].1) {
                    Some(c) => match counter.checked_add(c) {
                        Some(sum) => counter = sum,
                        None => return None,
                    },
                    None => return None,
                }
                i = i + 1;
            }
            assert(map@.take(map.len() as int) =~= map@);
        },
        JsonTree::Leaf(_) => {},
    }
    Some(counter)
}

/// The explorer for the JSON file at `path` whose bytes are `bytes`; an
/// error when they are not JSON (with `serde_json`'s error), or when the
/// document has too many values to be counted with room to spare in a `usize`.
pub fn read_file(path: String, bytes: &[u8]) -> (env: Result<JsonEnviroment, ReadError>)
    ensures
        match json_bytes_document(bytes@) {
            None => env matches Err(ReadError::Json(_)),
            Some(doc) => if value_count(doc) + 100 <= usize::MAX {
                &&& env matches Ok(e)
                &&& e.entries@ == flatten(doc, JsonIndex::Root, 0, 0, 0)
                &&& e.filtered_indicies@.len() == 0
                &&& e.path == path
            } else {
                env matches Err(ReadError::TooManyValues)
            },
        },
{
    let doc = match parse_json_bytes(bytes) {
        Ok(doc) => doc,
        Err(e) => {
            return Err(ReadError::Json(e));
        },
    };
    match checked_value_count(&doc) {
        Some(n) => if n <= usize::MAX - 100 {
            Ok(JsonEnviroment::from_json(doc, path))
        } else {
            Err(ReadError::TooManyValues)
        },
        None => Err(ReadError::TooManyValues),
    }
}

} // verus!
