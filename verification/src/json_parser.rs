use vstd::prelude::*;

use crate::json_tree::JsonTree;
use crate::json_utils::{json_bytes_document, parse_json_bytes, ReadError};

verus! {

/// A document together with the path of the file it was read from.
#[derive(Debug)]
pub struct CurrentJSON {
    pub path: String,
    pub json: JsonTree,
}

/// The document in the JSON file at `path` whose bytes are `bytes`; an
/// error with `serde_json`'s error when they are not JSON.
pub fn read_file(path: String, bytes: &[u8]) -> (current: Result<CurrentJSON, ReadError>)
    ensures
        match json_bytes_document(bytes@) {
            None => current matches Err(ReadError::Json(_)),
            Some(doc) => current matches Ok(c) && c.path == path && c.json == doc,
        },
{
    match parse_json_bytes(bytes) {
        Ok(json) => Ok(CurrentJSON { path, json }),
        Err(e) => Err(ReadError::Json(e)),
    }
}

} // verus!
