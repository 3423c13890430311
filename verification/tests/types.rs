//! Tests for `JsonPointer`: parsing, ancestor walks, descendancy and
//! resolution against a document.

use hexis_cli::json::{Json, JsonObject};
use hexis_cli::types::JsonPointer;
use hexis_cli::Error;
use hexis_cli::FileId;

fn to_json(value: &serde_json::Value) -> Json {
    match value {
        serde_json::Value::Null => Json::Null,
        serde_json::Value::Bool(flag) => Json::Bool(*flag),
        serde_json::Value::Number(number) => Json::number(&number.to_string()),
        serde_json::Value::String(text) => Json::string(text),
        serde_json::Value::Array(items) => Json::array(items.iter().map(to_json).collect()),
        serde_json::Value::Object(map) => {
            let mut object = JsonObject::new();
            for (key, item) in map {
                object.insert(key.clone(), to_json(item));
            }
            Json::Object(object)
        }
    }
}

fn json(text: &str) -> Json {
    to_json(&serde_json::from_str(text).expect("fixture is JSON"))
}

#[test]
fn root_pointer_is_empty() {
    let root = JsonPointer::root();
    assert!(root.is_root());
    assert_eq!(root.as_str(), "");
}

#[test]
fn parse_empty_string_yields_root() {
    let pointer = JsonPointer::from_str("").expect("empty string is valid");
    assert!(pointer.is_root());
}

#[test]
fn parse_rejects_pointer_without_leading_slash() {
    let result = JsonPointer::from_str("foo/bar");
    assert!(matches!(result, Err(Error::InvalidJsonPointer(_))));
}

#[test]
fn parse_accepts_well_formed_pointer() {
    let pointer = JsonPointer::from_str("/foo/bar").expect("valid");
    assert_eq!(pointer.as_str(), "/foo/bar");
}

#[test]
fn parent_of_root_is_none() {
    assert!(JsonPointer::root().parent().is_none());
}

#[test]
fn parent_of_top_level_pointer_is_root() {
    let parent = JsonPointer::from_str("/foo").unwrap().parent().unwrap();
    assert!(parent.is_root());
}

#[test]
fn parent_strips_one_segment() {
    let parent = JsonPointer::from_str("/foo/bar/baz")
        .unwrap()
        .parent()
        .unwrap();
    assert_eq!(parent.as_str(), "/foo/bar");
}

#[test]
fn ancestors_yields_self_through_root() {
    let pointer = JsonPointer::from_str("/foo/bar").unwrap();
    let chain: Vec<String> = pointer.ancestors().iter().map(|p| p.to_string()).collect();
    assert_eq!(chain, vec!["/foo/bar", "/foo", ""]);
}

#[test]
fn ancestors_of_root_yields_just_root() {
    let chain: Vec<String> = JsonPointer::root()
        .ancestors()
        .iter()
        .map(|p| p.to_string())
        .collect();
    assert_eq!(chain, vec![""]);
}

#[test]
fn resolve_root_returns_whole_document() {
    let document = json(r#"{ "a": 1, "b": [2, 3] }"#);
    let resolved = JsonPointer::root().resolve(&document).expect("root resolves");
    assert_eq!(resolved, &document);
}

#[test]
fn resolve_walks_into_nested_objects() {
    let document = json(r#"{ "outer": { "inner": "leaf" } }"#);
    let pointer = JsonPointer::from_str("/outer/inner").unwrap();
    let resolved = pointer.resolve(&document).expect("resolves");
    assert_eq!(resolved, &json(r#""leaf""#));
}

#[test]
fn resolve_returns_none_when_segment_is_missing() {
    let document = json(r#"{ "outer": { } }"#);
    let pointer = JsonPointer::from_str("/outer/missing").unwrap();
    assert!(pointer.resolve(&document).is_none());
}

#[test]
fn root_is_ancestor_of_everything_including_itself() {
    let root = JsonPointer::root();
    assert!(root.is_descendant_of(&root));
    let deep = JsonPointer::from_str("/a/b/c").unwrap();
    assert!(deep.is_descendant_of(&root));
}

#[test]
fn pointer_is_descendant_of_itself() {
    let pointer = JsonPointer::from_str("/a/b").unwrap();
    assert!(pointer.is_descendant_of(&pointer));
}

#[test]
fn child_is_descendant_of_parent() {
    let parent = JsonPointer::from_str("/a").unwrap();
    let child = JsonPointer::from_str("/a/b").unwrap();
    assert!(child.is_descendant_of(&parent));
}

#[test]
fn prefix_overlap_is_not_descendancy() {
    let candidate = JsonPointer::from_str("/aa").unwrap();
    let root = JsonPointer::from_str("/a").unwrap();
    assert!(!candidate.is_descendant_of(&root));
}

#[test]
fn unrelated_pointer_is_not_descendant() {
    let a = JsonPointer::from_str("/foo").unwrap();
    let b = JsonPointer::from_str("/bar").unwrap();
    assert!(!a.is_descendant_of(&b));
    assert!(!b.is_descendant_of(&a));
}

#[test]
fn escaped_tokens_round_trip_through_text() {
    let pointer = JsonPointer::from_str("/a~1b/c~0d").expect("escapes are valid");
    assert_eq!(pointer.tokens(), &vec!["a/b".to_string(), "c~d".to_string()]);
    let rebuilt = JsonPointer::root().child("a/b").child("c~d");
    assert_eq!(rebuilt.as_str(), "/a~1b/c~0d");
    assert!(rebuilt.same_as(&pointer));
}

#[test]
fn parse_rejects_dangling_tilde() {
    assert!(matches!(
        JsonPointer::from_str("/a~"),
        Err(Error::InvalidJsonPointer(_))
    ));
    assert!(matches!(
        JsonPointer::from_str("/a~2"),
        Err(Error::InvalidJsonPointer(_))
    ));
}

#[test]
fn resolve_walks_into_arrays_by_index() {
    let document = json(r#"{ "list": [10, 20, { "x": true }] }"#);
    let pointer = JsonPointer::from_str("/list/2/x").unwrap();
    assert_eq!(pointer.resolve(&document), Some(&json("true")));
    assert!(JsonPointer::from_str("/list/01").unwrap().resolve(&document).is_none());
    assert!(JsonPointer::from_str("/list/3").unwrap().resolve(&document).is_none());
}

#[test]
fn set_in_then_resolve_reads_the_written_value() {
    let mut document = json(r#"{ "keep": 1 }"#);
    let pointer = JsonPointer::from_str("/new/nested/leaf").unwrap();
    pointer.set_in(&mut document, json("42")).expect("objects on the way");
    assert_eq!(pointer.resolve(&document), Some(&json("42")));
    assert_eq!(document.pointer("/keep"), Some(&json("1")));
}

#[test]
fn set_in_through_a_scalar_fails_and_leaves_document_alone() {
    let mut document = json(r#"{ "editor": 5 }"#);
    let before = document.deep_copy();
    let pointer = JsonPointer::from_str("/editor/tabSize").unwrap();
    let result = pointer.set_in(&mut document, json("4"));
    assert!(matches!(result, Err(Error::PointerThroughNonObject(_))));
    assert_eq!(document, before);
}

#[test]
fn file_id_is_the_head_of_the_path_digest() {
    assert_eq!(
        FileId::from_canonical_path("/home/user/.config/app/settings.json").as_str(),
        "e5f8eebdc0ac"
    );
    assert_eq!(FileId::from_canonical_path("/tmp/x").as_str(), "2e56aa36f538");
    assert_eq!(FileId::from_canonical_path("").as_str(), "e3b0c44298fc");
    assert!(!FileId::from_canonical_path("/tmp/x").same_as(&FileId::from_canonical_path("/tmp/y")));
}
