//! The codebook of a user in JSON.

use serde_json::Value;
use vstd::prelude::*;

use crate::json;
use crate::json::Json;
use crate::text;

verus! {

/// The codebook in a value: the texts under `tokens`.
pub open spec fn codebook_in(v: Json, path: Seq<char>) -> Result<Seq<Seq<char>>, Seq<char>> {
    json::strings_in(
        json::member(v, "tokens"@),
        path + ": missing tokens array"@,
        path + ": token is not a string"@,
    )
}

/// Reads the codebook in a value.
pub fn codebook_of(v: &Value, path: &str) -> (r: Result<Vec<String>, String>)
    ensures
        match r {
            Ok(t) => codebook_in(json::json_in(*v), path@) == Ok::<Seq<Seq<char>>, Seq<char>>(text::texts(t@)),
            Err(w) => codebook_in(json::json_in(*v), path@) == Err::<Seq<Seq<char>>, Seq<char>>(w@),
        },
{
    let missing = text::concat2(path, ": missing tokens array");
    let wrong = text::concat2(path, ": token is not a string");
    json::read_strings(json::field(v, "tokens"), missing.as_str(), wrong.as_str())
}

/// What the text of a codebook's file is read as.
pub open spec fn codebook_file(path: Seq<char>, content: Seq<char>) -> Result<Seq<Seq<char>>, Seq<char>> {
    match json::parsed(content) {
        Err(w) => Err(path + ": "@ + w),
        Ok(v) => codebook_in(v, path),
    }
}

/// Reads the codebook in a text.
pub fn read_codebook(path: &str, content: &str) -> (r: Result<Vec<String>, String>)
    ensures
        match r {
            Ok(t) => codebook_file(path@, content@) == Ok::<Seq<Seq<char>>, Seq<char>>(text::texts(t@)),
            Err(w) => codebook_file(path@, content@) == Err::<Seq<Seq<char>>, Seq<char>>(w@),
        },
{
    match json::parse(content) {
        Err(w) => Err(text::concat3(path, ": ", w.as_str())),
        Ok(v) => codebook_of(&v, path),
    }
}

} // verus!
