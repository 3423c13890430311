//! Tests for the snapshot: markers and image, reading the on-disk shape,
//! and `clear_subtree`.

use hexis_cli::json::{Json, JsonObject};
use hexis_cli::live::Live;
use hexis_cli::snapshot::{Marker, Snapshot};
use hexis_cli::types::JsonPointer;
use hexis_cli::Error;

fn to_json(value: &serde_json::Value) -> Json {
    match value {
        serde_json::Value::Null => Json::Null,
        serde_json::Value::Bool(flag) => Json::Bool(*flag),
        serde_json::Value::Number(number) => Json::number(&number.to_string()),
        serde_json::Value::String(text) => Json::string(text),
        serde_json::Value::Array(items) => Json::array(items.iter().map(to_json).collect()),
        serde_json::Value::Object(map) => {
            let mut object = JsonObject::new();
            for (key, item) in map {
                object.insert(key.clone(), to_json(item));
            }
            Json::Object(object)
        }
    }
}

fn json(text: &str) -> Json {
    to_json(&serde_json::from_str(text).expect("fixture is JSON"))
}

#[test]
fn empty_snapshot_has_no_markers_and_null_image() {
    let snapshot = Snapshot::empty("/tmp/snap.json".to_string());
    let any_pointer = JsonPointer::from_str("/anything").unwrap();
    assert!(snapshot.marker(&any_pointer).is_none());
    assert!(snapshot.image().is_null());
}

#[test]
fn set_and_retrieve_marker() {
    let mut snapshot = Snapshot::empty("/tmp/snap.json".to_string());
    let pointer = JsonPointer::from_str("/devtools/autoConnect").unwrap();
    snapshot.set_marker(
        pointer.duplicate(),
        Marker::new("2026-04-28T15:00:00Z".to_string(), json("true")),
    );
    let marker = snapshot.marker(&pointer).expect("set marker is retrievable");
    assert_eq!(marker.applied_at(), "2026-04-28T15:00:00Z");
    assert_eq!(marker.value_when_applied(), &json("true"));
}

#[test]
fn parse_rejects_unknown_schema() {
    let text = r#"{ "schema": 99, "applied_markers": {}, "image": null }"#;
    let result = Snapshot::from_text_for_test(text);
    assert!(matches!(result, Err(Error::SnapshotParse { .. })));
}

#[test]
fn parse_rejects_missing_schema() {
    let text = r#"{ "applied_markers": {}, "image": null }"#;
    let result = Snapshot::from_text_for_test(text);
    assert!(matches!(result, Err(Error::SnapshotParse { .. })));
}

#[test]
fn snapshot_parse_rejects_non_object_root() {
    let text = r#"[1, 2, 3]"#;
    let result = Snapshot::from_text_for_test(text);
    assert!(matches!(result, Err(Error::SnapshotParse { .. })));
}

#[test]
fn parse_accepts_minimal_snapshot() {
    let text = r#"{ "schema": 1, "applied_markers": {}, "image": null }"#;
    let snapshot = Snapshot::from_text_for_test(text).expect("minimal schema");
    assert!(snapshot.image().is_null());
}

#[test]
fn parse_accepts_snapshot_without_applied_markers_field() {
    let text = r#"{ "schema": 1, "image": { "editor": { "tabSize": 4 } } }"#;
    let snapshot = Snapshot::from_text_for_test(text).expect("missing markers field is fine");
    assert_eq!(snapshot.image().pointer("/editor/tabSize"), Some(&json("4")));
}

#[test]
fn clear_subtree_drops_descendants_of_root() {
    let mut snapshot = Snapshot::empty("/tmp/snap.json".to_string());
    let inside = JsonPointer::from_str("/security/sandbox").unwrap();
    let outside = JsonPointer::from_str("/editor/tabSize").unwrap();
    let marker = Marker::new("now".to_string(), json("true"));
    snapshot.set_marker(inside.duplicate(), Marker::new("now".to_string(), json("true")));
    snapshot.set_marker(outside.duplicate(), marker);

    let security = JsonPointer::from_str("/security").unwrap();
    snapshot.clear_subtree(&security);

    assert!(snapshot.marker(&inside).is_none(), "descendant marker dropped");
    assert!(snapshot.marker(&outside).is_some(), "unrelated marker survives");
}

#[test]
fn clear_subtree_at_root_drops_everything() {
    let mut snapshot = Snapshot::empty("/tmp/snap.json".to_string());
    let pointer = JsonPointer::from_str("/anywhere").unwrap();
    snapshot.set_marker(pointer.duplicate(), Marker::new("now".to_string(), json("0")));
    snapshot.clear_subtree(&JsonPointer::root());
    assert!(snapshot.marker(&pointer).is_none());
}

#[test]
fn snapshot_round_trips_markers_and_image_through_its_document() {
    let mut snapshot = Snapshot::empty("snap.json".to_string());
    let pointer = JsonPointer::from_str("/devtools/autoConnect").unwrap();
    snapshot.set_marker(
        pointer.duplicate(),
        Marker::new("2026-04-28T15:00:00Z".to_string(), json("true")),
    );
    snapshot.set_image(json(r#"{ "editor": { "tabSize": 4 } }"#));
    let document = snapshot.to_value();
    assert_eq!(
        document.pointer("/applied_markers/~1devtools~1autoConnect/applied_at"),
        Some(&json(r#""2026-04-28T15:00:00Z""#))
    );
    let read_back = Snapshot::from_value(&document, "snap.json".to_string()).expect("reads back");
    let read_marker = read_back.marker(&pointer).expect("marker survives round-trip");
    assert_eq!(read_marker.applied_at(), "2026-04-28T15:00:00Z");
    assert_eq!(read_marker.value_when_applied(), &json("true"));
    assert_eq!(read_back.image().pointer("/editor/tabSize"), Some(&json("4")));
}

#[test]
fn setting_a_marker_twice_keeps_the_latest() {
    let mut snapshot = Snapshot::empty("s".to_string());
    let pointer = JsonPointer::from_str("/k").unwrap();
    snapshot.set_marker(pointer.duplicate(), Marker::new("first".to_string(), json("1")));
    snapshot.set_marker(pointer.duplicate(), Marker::new("second".to_string(), json("2")));
    assert_eq!(snapshot.marker(&pointer).unwrap().applied_at(), "second");
}

#[test]
fn malformed_markers_are_rejected() {
    assert!(matches!(
        Snapshot::from_text_for_test(r#"{ "schema": 1, "applied_markers": { "no-slash": { "applied_at": "t", "value_when_applied": 1 } } }"#),
        Err(Error::SnapshotParse { .. })
    ));
    assert!(matches!(
        Snapshot::from_text_for_test(r#"{ "schema": 1, "applied_markers": { "/k": { "applied_at": 5, "value_when_applied": 1 } } }"#),
        Err(Error::SnapshotParse { .. })
    ));
    assert!(matches!(
        Snapshot::from_text_for_test(r#"{ "schema": 1, "applied_markers": [] }"#),
        Err(Error::SnapshotParse { .. })
    ));
}

#[test]
fn rendered_snapshot_reads_back() {
    let mut snapshot = Snapshot::empty("snap.json".to_string());
    let pointer = JsonPointer::from_str("/devtools/autoConnect").unwrap();
    snapshot.set_marker(
        pointer.duplicate(),
        Marker::new("2026-04-28T15:00:00Z".to_string(), json("true")),
    );
    snapshot.set_image(json(r#"{ "editor": { "tabSize": 4 } }"#));
    let text = snapshot.render("snap.json").expect("renders");
    assert!(text.ends_with('\n'));
    let read_back = Snapshot::from_text(&text, "snap.json".to_string()).expect("reads back");
    assert_eq!(read_back.marker(&pointer).unwrap().applied_at(), "2026-04-28T15:00:00Z");
    assert_eq!(read_back.image().pointer("/editor/tabSize"), Some(&json("4")));
    assert_eq!(read_back.source_path(), "snap.json");
}

#[test]
fn snapshot_text_that_is_not_json_is_refused() {
    match Snapshot::from_text("{ nope", "state/snap.json".to_string()) {
        Err(Error::SnapshotParse { source_path, .. }) => assert_eq!(source_path, "state/snap.json"),
        other => panic!("expected a parse error, got {:?}", other),
    }
}

#[test]
fn drift_against_is_empty_before_the_first_image() {
    let snapshot = Snapshot::empty("snap.json".to_string());
    let live = Live::from_text_for_test(r#"{ "editor": { "tabSize": 2 } }"#).unwrap();
    assert!(snapshot.drift_against(&live).is_empty());
}

#[test]
fn drift_against_reports_what_changed_since_the_image() {
    let mut snapshot = Snapshot::empty("snap.json".to_string());
    snapshot.set_image(json(r#"{ "editor": { "tabSize": 4 } }"#));
    let live = Live::from_text_for_test(r#"{ "editor": { "tabSize": 4, "wordWrap": "on" } }"#).unwrap();
    let drift = snapshot.drift_against(&live);
    assert_eq!(drift.as_value(), &json(r#"{ "editor": { "wordWrap": "on" } }"#));
}

#[test]
fn snapshot_refusals_say_what_is_wrong() {
    let reason = |text: &str| match Snapshot::from_text_for_test(text) {
        Err(Error::SnapshotParse { reason, .. }) => reason,
        other => panic!("expected a parse error, got {:?}", other),
    };
    assert_eq!(reason("[1, 2, 3]"), "root must be an object");
    assert_eq!(reason(r#"{ "schema": 99 }"#), "schema = 99, expected 1");
    assert_eq!(reason(r#"{ "applied_markers": {} }"#), "missing or non-integer schema field");
    assert_eq!(reason(r#"{ "schema": 1.5 }"#), "missing or non-integer schema field");
    assert_eq!(reason(r#"{ "schema": -1 }"#), "missing or non-integer schema field");
    assert_eq!(reason(r#"{ "schema": "1" }"#), "missing or non-integer schema field");
    assert_eq!(reason(r#"{ "schema": 1, "applied_markers": 3 }"#), "applied_markers must be an object");
}

#[test]
fn a_bad_marker_is_named_with_its_key() {
    let reason = |text: &str| match Snapshot::from_text_for_test(text) {
        Err(Error::SnapshotParse { reason, .. }) => reason,
        other => panic!("expected a parse error, got {:?}", other),
    };
    assert_eq!(
        reason(r#"{ "schema": 1, "applied_markers": { "no-slash": { "applied_at": "t", "value_when_applied": 1 } } }"#),
        r#"applied_markers["no-slash"]: invalid JSON pointer: no-slash"#
    );
    assert_eq!(
        reason(r#"{ "schema": 1, "applied_markers": { "/k": 5 } }"#),
        r#"applied_markers["/k"]: marker must be an object"#
    );
    assert_eq!(
        reason(r#"{ "schema": 1, "applied_markers": { "/k": { "applied_at": 5, "value_when_applied": 1 } } }"#),
        r#"applied_markers["/k"]: marker.applied_at must be a string"#
    );
    assert_eq!(
        reason(r#"{ "schema": 1, "applied_markers": { "/k": { "applied_at": "t" } } }"#),
        r#"applied_markers["/k"]: marker.value_when_applied required"#
    );
}

#[test]
fn of_several_bad_markers_the_first_key_in_order_is_named() {
    let mut table = JsonObject::new();
    table.insert("/z".to_string(), json("1"));
    table.insert("/b".to_string(), json(r#"{ "applied_at": "t", "value_when_applied": 1 }"#));
    table.insert("/a\"q".to_string(), json("2"));
    table.insert("/c".to_string(), json("3"));
    let mut root = JsonObject::new();
    root.insert("schema".to_string(), json("1"));
    root.insert("applied_markers".to_string(), Json::Object(table));
    match Snapshot::from_value(&Json::Object(root), "s".to_string()) {
        Err(Error::SnapshotParse { reason, .. }) => {
            assert_eq!(reason, r#"applied_markers["/a\"q"]: marker must be an object"#)
        }
        other => panic!("expected a parse error, got {:?}", other),
    }
}
