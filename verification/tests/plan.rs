//! Tests for `Plan::build`: the leaf walk from a declared overlay and a
//! snapshot to per-pointer actions.

use hexis_cli::declared::Declared;
use hexis_cli::json::{Json, JsonObject};
use hexis_cli::plan::{Action, Plan};
use hexis_cli::snapshot::{Marker, Snapshot};
use hexis_cli::types::JsonPointer;

fn to_json(value: &serde_json::Value) -> Json {
    match value {
        serde_json::Value::Null => Json::Null,
        serde_json::Value::Bool(flag) => Json::Bool(*flag),
        serde_json::Value::Number(number) => Json::number(&number.to_string()),
        serde_json::Value::String(text) => Json::string(text),
        serde_json::Value::Array(items) => Json::array(items.iter().map(to_json).collect()),
        serde_json::Value::Object(map) => {
            let mut object = JsonObject::new();
            for (key, item) in map {
                object.insert(key.clone(), to_json(item));
            }
            Json::Object(object)
        }
    }
}

fn json(text: &str) -> Json {
    to_json(&serde_json::from_str(text).expect("fixture is JSON"))
}

fn declared(text: &str) -> Declared {
    Declared::from_text_for_test(text).expect("parses")
}

fn empty_snapshot() -> Snapshot {
    Snapshot::empty("<test-snap>".to_string())
}

#[test]
fn empty_declared_yields_empty_plan() {
    let declared = declared(r#"{}"#);
    let plan = Plan::build(&declared, &empty_snapshot());
    assert!(plan.is_empty());
}

#[test]
fn default_mode_emits_ensure_at_each_leaf() {
    let declared = declared(r#"{ "editor": { "tabSize": 4, "wordWrap": "on" } }"#);
    let plan = Plan::build(&declared, &empty_snapshot());
    assert_eq!(plan.actions().len(), 2);
    assert!(plan.actions().iter().all(|a| matches!(a, Action::Ensure { .. })));
}

#[test]
fn once_mode_with_no_marker_emits_write_once() {
    let declared = declared(
        r#"{
            "$hexis": { "schema": 1, "modes": { "/devtools/autoConnect": "once" } },
            "devtools": { "autoConnect": true }
        }"#,
    );
    let plan = Plan::build(&declared, &empty_snapshot());
    assert_eq!(plan.actions().len(), 1);
    match &plan.actions()[0] {
        Action::WriteOnce { pointer, value } => {
            assert_eq!(pointer.as_str(), "/devtools/autoConnect");
            assert_eq!(value, &json("true"));
        }
        other => panic!("expected WriteOnce, got {:?}", other.pointer().as_str()),
    }
}

#[test]
fn once_mode_with_marker_emits_leave_alone() {
    let declared = declared(
        r#"{
            "$hexis": { "schema": 1, "modes": { "/devtools/autoConnect": "once" } },
            "devtools": { "autoConnect": true }
        }"#,
    );
    let mut snapshot = empty_snapshot();
    let pointer = JsonPointer::from_str("/devtools/autoConnect").unwrap();
    snapshot.set_marker(
        pointer.duplicate(),
        Marker::new("2026-04-28T12:00:00Z".to_string(), json("true")),
    );
    let plan = Plan::build(&declared, &snapshot);
    assert_eq!(plan.actions().len(), 1);
    assert!(matches!(&plan.actions()[0], Action::LeaveAlone { .. }));
    assert_eq!(plan.actions()[0].pointer().as_str(), "/devtools/autoConnect");
}

#[test]
fn always_mode_emits_always_action() {
    let declared = declared(
        r#"{
            "$hexis": { "schema": 1, "modes": { "/security/sandbox": "always" } },
            "security": { "sandbox": true }
        }"#,
    );
    let plan = Plan::build(&declared, &empty_snapshot());
    assert_eq!(plan.actions().len(), 1);
    assert!(matches!(&plan.actions()[0], Action::Always { .. }));
}

#[test]
fn mode_inherits_to_nested_leaves() {
    let declared = declared(
        r#"{
            "$hexis": { "schema": 1, "modes": { "/security": "always" } },
            "security": { "sandbox": true, "policy": { "strict": true } }
        }"#,
    );
    let plan = Plan::build(&declared, &empty_snapshot());
    assert_eq!(plan.actions().len(), 2);
    assert!(plan.actions().iter().all(|a| matches!(a, Action::Always { .. })));
}

#[test]
fn explicit_modes_override_inherited_default_at_their_pointer() {
    let declared = declared(
        r#"{
            "$hexis": { "schema": 1, "modes": { "/a/b": "once" } },
            "a": { "b": true, "c": "drift-survives-here" }
        }"#,
    );
    let plan = Plan::build(&declared, &empty_snapshot());
    assert_eq!(plan.actions().len(), 2);

    let by_pointer: std::collections::HashMap<_, _> = plan
        .actions()
        .iter()
        .map(|action| (action.pointer().as_str().to_string(), action))
        .collect();

    assert!(matches!(
        by_pointer.get("/a/b").unwrap(),
        Action::WriteOnce { .. }
    ));
    assert!(matches!(
        by_pointer.get("/a/c").unwrap(),
        Action::Ensure { .. }
    ));
}

#[test]
fn declared_without_value_at_once_pointer_emits_no_action() {
    let declared = declared(
        r#"{
            "$hexis": { "schema": 1, "modes": { "/missing": "once" } },
            "other": 1
        }"#,
    );
    let plan = Plan::build(&declared, &empty_snapshot());
    assert_eq!(plan.actions().len(), 1);
    assert_eq!(plan.actions()[0].pointer().as_str(), "/other");
}

#[test]
fn arrays_are_leaves_and_keys_are_escaped() {
    let declared = declared(r#"{ "list": [1, 2], "a/b": { "c~d": 1 } }"#);
    let plan = Plan::build(&declared, &empty_snapshot());
    let mut pointers: Vec<String> = plan
        .actions()
        .iter()
        .map(|action| action.pointer().to_string())
        .collect();
    pointers.sort();
    assert_eq!(pointers, vec!["/a~1b/c~0d".to_string(), "/list".to_string()]);
}
