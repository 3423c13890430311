//! JSON and TOML text: reading a document from text and rendering one as
//! text, through `serde_json` and `toml`.
//!
//! What the parsers and printers give back is named here, not restated:
//! each name stands for what one outside function returns on its argument,
//! the document taken by its meaning.
use vstd::prelude::*;

use crate::json::{Json, JsonObject, JsonValue};

verus! {

#[verifier::external_type_specification]
#[verifier::external_body]
pub struct ExJsonTree(serde_json::Value);

/// What `serde_json::from_str` reads from `text`: the document, or the
/// parser's message when `text` is not JSON.
pub uninterp spec fn json_reading(text: Seq<char>) -> Result<JsonValue, Seq<char>>;

/// What `toml::from_str` reads from `text` into a `serde_json` value tree:
/// the document, or the parser's message when `text` is not TOML.
pub uninterp spec fn toml_reading(text: Seq<char>) -> Result<JsonValue, Seq<char>>;

/// What `serde_json::to_string_pretty` renders of `doc`, or its message.
pub uninterp spec fn json_rendering(doc: JsonValue) -> Result<Seq<char>, Seq<char>>;

/// What `toml::to_string_pretty` renders of `doc`, or its message.
pub uninterp spec fn toml_rendering(doc: JsonValue) -> Result<Seq<char>, Seq<char>>;

/// Converts a `serde_json` value tree into a `Json`, node for node; a
/// number keeps the text that `serde_json` prints for it.
#[verifier::external_body]
fn tree_from_serde(tree: serde_json::Value) -> Json {
    match tree {
        serde_json::Value::Null => Json::Null,
        serde_json::Value::Bool(flag) => Json::Bool(flag),
        serde_json::Value::Number(number) => Json::Number(number.to_string()),
        serde_json::Value::String(text) => Json::String(text),
        serde_json::Value::Array(items) => Json::Array(items.into_iter().map(tree_from_serde).collect()),
        serde_json::Value::Object(members) => {
            let mut object = JsonObject::new();
            for (key, item) in members {
                object.insert(key, tree_from_serde(item));
            }
            Json::Object(object)
        },
    }
}

/// Converts a `Json` into a `serde_json` value tree, node for node; a
/// number's text is read back with `serde_json::Number`'s `from_str`, whose
/// message is returned where the text is not a number.
#[verifier::external_body]
fn tree_to_serde(doc: &Json) -> Result<serde_json::Value, String> {
    Ok(match doc {
        Json::Null => serde_json::Value::Null,
        Json::Bool(flag) => serde_json::Value::Bool(*flag),
        Json::Number(text) => serde_json::Value::Number(text.parse().map_err(|error: serde_json::Error| error.to_string())?),
        Json::String(text) => serde_json::Value::String(text.clone()),
        Json::Array(items) => serde_json::Value::Array(items.iter().map(tree_to_serde).collect::<Result<_, _>>()?),
        Json::Object(object) => {
            let mut members = serde_json::Map::new();
            for (key, item) in object.member_list() {
                members.insert(key.clone(), tree_to_serde(item)?);
            }
            serde_json::Value::Object(members)
        },
    })
}

/// Reads `text` with `serde_json::from_str` into a value tree. The contract
/// names the outcome (`json_reading`) and states nothing more: which texts
/// are JSON, what they mean and the messages are `serde_json`'s.
#[verifier::external_body]
pub(crate) fn read_json(text: &str) -> (r: Result<Json, String>)
    ensures
        match r {
            Ok(doc) => json_reading(text@) == Ok::<JsonValue, Seq<char>>(doc@),
            Err(message) => json_reading(text@) == Err::<JsonValue, Seq<char>>(message@),
        },
{
    match serde_json::from_str::<serde_json::Value>(text) {
        Ok(tree) => Ok(tree_from_serde(tree)),
        Err(error) => Err(error.to_string()),
    }
}

/// Reads `text` with `toml::from_str` into a `serde_json` value tree. The
/// contract names the outcome (`toml_reading`) and states nothing more:
/// which texts are TOML, what they mean and the messages are `toml`'s.
#[verifier::external_body]
pub(crate) fn read_toml(text: &str) -> (r: Result<Json, String>)
    ensures
        match r {
            Ok(doc) => toml_reading(text@) == Ok::<JsonValue, Seq<char>>(doc@),
            Err(message) => toml_reading(text@) == Err::<JsonValue, Seq<char>>(message@),
        },
{
    match toml::from_str::<serde_json::Value>(text) {
        Ok(tree) => Ok(tree_from_serde(tree)),
        Err(error) => Err(error.to_string()),
    }
}

/// Renders `doc` with `serde_json::to_string_pretty`. The contract names the
/// outcome (`json_rendering`) and states nothing more: the layout and the
/// messages are `serde_json`'s.
#[verifier::external_body]
pub(crate) fn render_json(doc: &Json) -> (r: Result<String, String>)
    ensures
        match r {
            Ok(text) => json_rendering(doc@) == Ok::<Seq<char>, Seq<char>>(text@),
            Err(message) => json_rendering(doc@) == Err::<Seq<char>, Seq<char>>(message@),
        },
{
    match tree_to_serde(doc) {
        Ok(tree) => serde_json::to_string_pretty(&tree).map_err(|error| error.to_string()),
        Err(message) => Err(message),
    }
}

/// Renders `doc` with `toml::to_string_pretty`. The contract names the
/// outcome (`toml_rendering`) and states nothing more: which documents TOML
/// can hold, the layout and the messages are `toml`'s.
#[verifier::external_body]
pub(crate) fn render_toml(doc: &Json) -> (r: Result<String, String>)
    ensures
        match r {
            Ok(text) => toml_rendering(doc@) == Ok::<Seq<char>, Seq<char>>(text@),
            Err(message) => toml_rendering(doc@) == Err::<Seq<char>, Seq<char>>(message@),
        },
{
    match tree_to_serde(doc) {
        Ok(tree) => toml::to_string_pretty(&tree).map_err(|error| error.to_string()),
        Err(message) => Err(message),
    }
}

impl Json {
    /// Read a JSON document from text; text that is not JSON is refused
    /// with the parser's message.
    pub fn from_text(text: &str) -> (r: Result<Json, String>)
        ensures
            match r {
                Ok(doc) => json_reading(text@) == Ok::<JsonValue, Seq<char>>(doc@),
                Err(message) => json_reading(text@) == Err::<JsonValue, Seq<char>>(message@),
            },
    {
        read_json(text)
    }

    /// The document as pretty-printed JSON text.
    pub fn to_pretty_text(&self) -> (r: Result<String, String>)
        ensures
            match r {
                Ok(text) => json_rendering(self@) == Ok::<Seq<char>, Seq<char>>(text@),
                Err(message) => json_rendering(self@) == Err::<Seq<char>, Seq<char>>(message@),
            },
    {
        render_json(self)
    }
}

} // verus!
