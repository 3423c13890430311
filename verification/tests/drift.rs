//! Tests for the drift patch (RFC 7396 diff and apply) and the drift
//! journal's append, rotation and legacy migration.

use hexis_cli::drift::{DriftEntry, DriftJournal, DriftPatch};
use hexis_cli::json::{Json, JsonObject};
use hexis_cli::Error;

fn to_json(value: &serde_json::Value) -> Json {
    match value {
        serde_json::Value::Null => Json::Null,
        serde_json::Value::Bool(flag) => Json::Bool(*flag),
        serde_json::Value::Number(number) => Json::number(&number.to_string()),
        serde_json::Value::String(text) => Json::string(text),
        serde_json::Value::Array(items) => Json::array(items.iter().map(to_json).collect()),
        serde_json::Value::Object(map) => {
            let mut object = JsonObject::new();
            for (key, item) in map {
                object.insert(key.clone(), to_json(item));
            }
            Json::Object(object)
        }
    }
}

fn json(text: &str) -> Json {
    to_json(&serde_json::from_str(text).expect("fixture is JSON"))
}

#[test]
fn empty_patch_is_empty() {
    let patch = DriftPatch::empty();
    assert!(patch.is_empty());
    assert_eq!(patch.as_value(), &json("{}"));
}

#[test]
fn between_equal_objects_is_empty_patch() {
    let document = json(r#"{ "editor": { "tabSize": 4 } }"#);
    let patch = DriftPatch::between(&document, &document);
    assert!(patch.is_empty());
}

#[test]
fn between_detects_added_key() {
    let before = json(r#"{ "editor": { "tabSize": 4 } }"#);
    let after = json(r#"{ "editor": { "tabSize": 4 }, "files": { "trim": true } }"#);
    let patch = DriftPatch::between(&before, &after);
    assert_eq!(patch.as_value(), &json(r#"{ "files": { "trim": true } }"#));
}

#[test]
fn between_detects_changed_value_via_recursion() {
    let before = json(r#"{ "editor": { "tabSize": 4, "wordWrap": "on" } }"#);
    let after = json(r#"{ "editor": { "tabSize": 2, "wordWrap": "on" } }"#);
    let patch = DriftPatch::between(&before, &after);
    assert_eq!(patch.as_value(), &json(r#"{ "editor": { "tabSize": 2 } }"#));
}

#[test]
fn between_emits_null_for_removed_key() {
    let before = json(r#"{ "editor": { "tabSize": 4, "deprecated": true } }"#);
    let after = json(r#"{ "editor": { "tabSize": 4 } }"#);
    let patch = DriftPatch::between(&before, &after);
    assert_eq!(patch.as_value(), &json(r#"{ "editor": { "deprecated": null } }"#));
}

#[test]
fn between_replaces_wholesale_when_types_disagree() {
    let before = json(r#"{ "k": [1, 2, 3] }"#);
    let after = json(r#"{ "k": "scalar-now" }"#);
    let patch = DriftPatch::between(&before, &after);
    assert_eq!(patch.as_value(), &json(r#"{ "k": "scalar-now" }"#));
}

#[test]
fn apply_to_round_trips_with_between() {
    let before = json(
        r#"{
        "editor": { "tabSize": 4, "wordWrap": "on" },
        "files":  { "trim": true }
    }"#,
    );
    let after = json(
        r#"{
        "editor": { "tabSize": 2, "wordWrap": "on" },
        "extras": ["one", "two"]
    }"#,
    );
    let patch = DriftPatch::between(&before, &after);
    let mut reconstructed = before.deep_copy();
    patch.apply_to(&mut reconstructed);
    assert_eq!(reconstructed, after);
}

#[test]
fn apply_to_with_empty_patch_is_noop_for_object_targets() {
    let mut target = json(r#"{ "editor": { "tabSize": 4 } }"#);
    DriftPatch::empty().apply_to(&mut target);
    assert_eq!(target, json(r#"{ "editor": { "tabSize": 4 } }"#));
}

#[test]
fn from_value_wraps_arbitrary_patch() {
    let patch = DriftPatch::from_value(json(r#"{ "k": "v", "deleted": null }"#));
    let mut target = json(r#"{ "deleted": "still here", "other": 1 }"#);
    patch.apply_to(&mut target);
    assert_eq!(target, json(r#"{ "k": "v", "other": 1 }"#));
}

#[test]
fn nested_diff_does_not_emit_empty_subtrees() {
    let before = json(r#"{ "a": { "b": { "c": 1 } }, "x": 2 }"#);
    let after = json(r#"{ "a": { "b": { "c": 1 } }, "x": 99 }"#);
    let patch = DriftPatch::between(&before, &after);
    assert_eq!(patch.as_value(), &json(r#"{ "x": 99 }"#));
}

#[test]
fn journal_rotates_oldest_off_at_max_entries() {
    let mut journal = DriftJournal::empty();
    for index in 0..(DriftJournal::MAX_ENTRIES + 5) {
        journal.append(DriftEntry::new(
            format!("2026-04-28T{index:02}:00:00Z"),
            DriftPatch::from_value(json(&format!(r#"{{ "i": {index} }}"#))),
        ));
    }
    assert_eq!(journal.entries().len(), DriftJournal::MAX_ENTRIES);
    assert_eq!(journal.entries()[0].applied_at(), "2026-04-28T05:00:00Z");
}

#[test]
fn journal_migrates_legacy_single_entry_format() {
    let legacy = r#"{
        "applied_at": "2026-04-28T10:00:00Z",
        "drift": { "editor": { "tabSize": 2 } }
    }"#;
    let journal = DriftJournal::from_text_for_test(legacy).expect("legacy migrates");
    assert_eq!(journal.entries().len(), 1);
    assert_eq!(journal.entries()[0].applied_at(), "2026-04-28T10:00:00Z");
}

#[test]
fn journal_rejects_unknown_shape() {
    let weird = r#"{ "neither_schema_nor_legacy": true }"#;
    let result = DriftJournal::from_text_for_test(weird);
    assert!(matches!(result, Err(Error::DriftParse { .. })));
}

#[test]
fn journal_round_trips_through_its_document() {
    let mut journal = DriftJournal::empty();
    journal.append(DriftEntry::new(
        "2026-04-28T12:00:00Z".to_string(),
        DriftPatch::from_value(json(r#"{ "k": "v1" }"#)),
    ));
    journal.append(DriftEntry::new(
        "2026-04-28T13:00:00Z".to_string(),
        DriftPatch::from_value(json(r#"{ "k": "v2" }"#)),
    ));
    let document = journal.to_value();
    assert_eq!(document.pointer("/schema"), Some(&json("1")));
    assert_eq!(
        document.pointer("/entries/1/applied_at"),
        Some(&json(r#""2026-04-28T13:00:00Z""#))
    );
    let read_back = DriftJournal::from_value(&document, "<test>").expect("reads back");
    assert_eq!(read_back.entries().len(), 2);
    assert_eq!(read_back.entries()[0].applied_at(), "2026-04-28T12:00:00Z");
    assert_eq!(read_back.entries()[1].drift().as_value(), &json(r#"{ "k": "v2" }"#));
}

#[test]
fn journal_rejects_unsupported_schema_and_bad_entries() {
    assert!(matches!(
        DriftJournal::from_text_for_test(r#"{ "schema": 2, "entries": [] }"#),
        Err(Error::DriftParse { .. })
    ));
    assert!(matches!(
        DriftJournal::from_text_for_test(r#"{ "schema": 1, "entries": [ { "drift": {} } ] }"#),
        Err(Error::DriftParse { .. })
    ));
    assert!(matches!(DriftJournal::from_text_for_test("[]"), Err(Error::DriftParse { .. })));
}

#[test]
fn patch_with_null_cannot_set_null_members() {
    let before = json(r#"{ "a": 1 }"#);
    let after = json(r#"{ "a": null }"#);
    let patch = DriftPatch::between(&before, &after);
    let mut reconstructed = before.deep_copy();
    patch.apply_to(&mut reconstructed);
    assert_eq!(reconstructed, json("{}"));
}

#[test]
fn patch_applied_to_a_scalar_builds_an_object() {
    let mut target = json("7");
    DriftPatch::from_value(json(r#"{ "a": { "b": 1, "c": null } }"#)).apply_to(&mut target);
    assert_eq!(target, json(r#"{ "a": { "b": 1 } }"#));
}

#[test]
fn journal_text_round_trips() {
    let mut journal = DriftJournal::empty();
    journal.append(DriftEntry::new(
        "first".to_string(),
        DriftPatch::from_value(json(r#"{ "first": true }"#)),
    ));
    let text = journal.render("drift.json").expect("renders");
    let mut journal = DriftJournal::from_text(&text, "drift.json").expect("reads back");
    journal.append(DriftEntry::new(
        "second".to_string(),
        DriftPatch::from_value(json(r#"{ "second": true }"#)),
    ));
    let text = journal.render("drift.json").expect("renders");
    let final_state = DriftJournal::from_text(&text, "drift.json").expect("reads back");
    assert_eq!(final_state.entries().len(), 2);
    assert_eq!(final_state.entries()[0].applied_at(), "first");
    assert_eq!(final_state.entries()[1].applied_at(), "second");
    assert_eq!(final_state.entries()[1].drift().as_value(), &json(r#"{ "second": true }"#));
}

#[test]
fn journal_text_that_is_not_json_is_refused() {
    match DriftJournal::from_text("not json", "drift/abc.json") {
        Err(Error::DriftParse { source_path, .. }) => assert_eq!(source_path, "drift/abc.json"),
        other => panic!("expected a parse error, got {:?}", other),
    }
}

#[test]
fn journal_refusals_say_what_is_wrong() {
    let reason = |text: &str| match DriftJournal::from_text_for_test(text) {
        Err(Error::DriftParse { reason, .. }) => reason,
        other => panic!("expected a parse error, got {:?}", other),
    };
    assert_eq!(reason(r#"{ "neither_schema_nor_legacy": true }"#), "neither a drift journal nor a legacy drift report");
    assert_eq!(reason(r#"{ "schema": 2, "entries": [] }"#), "unsupported drift journal schema");
    assert_eq!(reason(r#"{ "schema": 1 }"#), "drift journal entries must be an array");
    assert_eq!(reason(r#"{ "schema": 1, "entries": [ 5 ] }"#), "malformed drift journal entry");
}

#[test]
fn recording_starts_a_journal_or_extends_one() {
    let entry = DriftEntry::new("t1".to_string(), DriftPatch::from_value(json(r#"{ "a": 1 }"#)));
    let text = DriftJournal::record(None, "drift.json", entry).expect("recorded");
    let entry = DriftEntry::new("t2".to_string(), DriftPatch::from_value(json(r#"{ "a": 2 }"#)));
    let text = DriftJournal::record(Some(&text), "drift.json", entry).expect("recorded");
    let journal = DriftJournal::from_text(&text, "drift.json").unwrap();
    assert_eq!(journal.entries().len(), 2);
    assert_eq!(journal.entries()[1].applied_at(), "t2");
    let entry = DriftEntry::new("t3".to_string(), DriftPatch::empty());
    assert!(matches!(
        DriftJournal::record(Some("[]"), "drift.json", entry),
        Err(Error::DriftParse { ref reason, .. }) if reason == "neither a drift journal nor a legacy drift report"
    ));
}
