//! Tests for `Declared`: `$hexis` envelope extraction and nearest-ancestor
//! mode lookup.

use hexis_cli::declared::Declared;
use hexis_cli::types::{JsonPointer, Mode};
use hexis_cli::Error;

#[test]
fn parse_strips_hexis_envelope_from_data() {
    let text = r#"{
        "$hexis": { "schema": 1, "modes": {} },
        "editor": { "tabSize": 4 }
    }"#;
    let declared = Declared::from_text_for_test(text).expect("parses");
    let object = declared.data().as_object().expect("root is object");
    assert!(!object.contains_key("$hexis"));
    assert!(object.contains_key("editor"));
}

#[test]
fn parse_with_no_envelope_succeeds_with_default_modes() {
    let text = r#"{ "editor": { "tabSize": 4 } }"#;
    let declared = Declared::from_text_for_test(text).expect("parses");
    let pointer = JsonPointer::from_str("/editor/tabSize").unwrap();
    assert_eq!(declared.mode_at(&pointer), Mode::Ensure);
}

#[test]
fn mode_at_returns_explicit_mode_for_listed_pointer() {
    let text = r#"{
        "$hexis": {
            "schema": 1,
            "modes": {
                "/devtools/autoConnect": "once",
                "/security/sandbox":     "always"
            }
        },
        "devtools": { "autoConnect": true },
        "security": { "sandbox": true }
    }"#;
    let declared = Declared::from_text_for_test(text).expect("parses");
    assert_eq!(
        declared.mode_at(&JsonPointer::from_str("/devtools/autoConnect").unwrap()),
        Mode::Once,
    );
    assert_eq!(
        declared.mode_at(&JsonPointer::from_str("/security/sandbox").unwrap()),
        Mode::Always,
    );
}

#[test]
fn mode_at_walks_to_nearest_ancestor() {
    let text = r#"{
        "$hexis": {
            "schema": 1,
            "modes": { "/security": "always" }
        },
        "security": { "sandbox": true, "policy": { "strict": true } }
    }"#;
    let declared = Declared::from_text_for_test(text).expect("parses");
    let deep = JsonPointer::from_str("/security/policy/strict").unwrap();
    assert_eq!(declared.mode_at(&deep), Mode::Always);
}

#[test]
fn mode_at_falls_back_to_ensure_when_no_ancestor_listed() {
    let text = r#"{
        "$hexis": {
            "schema": 1,
            "modes": { "/security": "always" }
        },
        "editor": { "tabSize": 4 }
    }"#;
    let declared = Declared::from_text_for_test(text).expect("parses");
    let pointer = JsonPointer::from_str("/editor/tabSize").unwrap();
    assert_eq!(declared.mode_at(&pointer), Mode::Ensure);
}

#[test]
fn parse_rejects_unknown_mode_name() {
    let text = r#"{
        "$hexis": { "schema": 1, "modes": { "/x": "weird" } }
    }"#;
    let result = Declared::from_text_for_test(text);
    assert!(matches!(result, Err(Error::DeclaredParse { .. })));
}

#[test]
fn parse_rejects_invalid_pointer() {
    let text = r#"{
        "$hexis": { "schema": 1, "modes": { "no-leading-slash": "once" } }
    }"#;
    let result = Declared::from_text_for_test(text);
    assert!(matches!(result, Err(Error::DeclaredParse { .. })));
}

#[test]
fn parse_rejects_unknown_schema_version() {
    let text = r#"{ "$hexis": { "schema": 99, "modes": {} } }"#;
    let result = Declared::from_text_for_test(text);
    assert!(matches!(result, Err(Error::DeclaredParse { .. })));
}

#[test]
fn declared_parse_rejects_non_object_root() {
    let text = r#"[1, 2, 3]"#;
    let result = Declared::from_text_for_test(text);
    assert!(matches!(result, Err(Error::DeclaredParse { .. })));
}

#[test]
fn nearer_listing_overrides_an_outer_one() {
    let text = r#"{
        "$hexis": { "schema": 1, "modes": { "/a": "always", "/a/b": "once" } },
        "a": { "b": { "c": 1 }, "d": 2 }
    }"#;
    let declared = Declared::from_text_for_test(text).expect("parses");
    assert_eq!(declared.mode_at(&JsonPointer::from_str("/a/b/c").unwrap()), Mode::Once);
    assert_eq!(declared.mode_at(&JsonPointer::from_str("/a/d").unwrap()), Mode::Always);
    assert_eq!(declared.mode_at(&JsonPointer::root()), Mode::Ensure);
}

#[test]
fn envelope_without_modes_lists_nothing() {
    let declared = Declared::from_text_for_test(r#"{ "$hexis": { "schema": 1 }, "k": 1 }"#).expect("parses");
    assert_eq!(declared.mode_at(&JsonPointer::from_str("/k").unwrap()), Mode::Ensure);
}

#[test]
fn non_string_mode_is_rejected() {
    let result = Declared::from_text_for_test(r#"{ "$hexis": { "schema": 1, "modes": { "/x": 1 } } }"#);
    assert!(matches!(result, Err(Error::DeclaredParse { .. })));
}

#[test]
fn declared_parse_rejects_malformed_json() {
    let text = r#"{ this is not json"#;
    let result = Declared::from_text_for_test(text);
    assert!(matches!(result, Err(Error::DeclaredParse { .. })));
}

#[test]
fn parse_error_names_the_source_and_keeps_the_parser_message() {
    match Declared::from_text("[1,", "/etc/declared.json") {
        Err(Error::DeclaredParse { source_path, reason }) => {
            assert_eq!(source_path, "/etc/declared.json");
            assert!(!reason.is_empty());
        }
        other => panic!("expected a parse error, got {:?}", other),
    }
}

#[test]
fn declared_refusals_say_what_is_wrong() {
    let reason = |text: &str| match Declared::from_text_for_test(text) {
        Err(Error::DeclaredParse { reason, .. }) => reason,
        other => panic!("expected a parse error, got {:?}", other),
    };
    assert_eq!(reason("[1, 2, 3]"), "root must be an object");
    assert_eq!(reason(r#"{ "$hexis": 1 }"#), "malformed $hexis envelope");
    assert_eq!(reason(r#"{ "$hexis": { "schema": 99 } }"#), "unsupported $hexis schema");
    assert_eq!(reason(r#"{ "$hexis": { "schema": 1, "modes": [] } }"#), "malformed $hexis envelope");
}
