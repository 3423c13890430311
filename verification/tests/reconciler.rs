//! Tests for the reconciler's steps, on values: what the live data, the
//! snapshot and the drift become, and what the commit step writes.

use hexis_cli::declared::Declared;
use hexis_cli::drift::{DriftJournal, DriftPatch};
use hexis_cli::json::{Json, JsonObject};
use hexis_cli::live::Live;
use hexis_cli::reconciler::{Reading, Reconciler};
use hexis_cli::snapshot::Snapshot;
use hexis_cli::types::JsonPointer;
use hexis_cli::Error;

fn to_json(value: &serde_json::Value) -> Json {
    match value {
        serde_json::Value::Null => Json::Null,
        serde_json::Value::Bool(flag) => Json::Bool(*flag),
        serde_json::Value::Number(number) => Json::number(&number.to_string()),
        serde_json::Value::String(text) => Json::string(text),
        serde_json::Value::Array(items) => Json::array(items.iter().map(to_json).collect()),
        serde_json::Value::Object(map) => {
            let mut object = JsonObject::new();
            for (key, item) in map {
                object.insert(key.clone(), to_json(item));
            }
            Json::Object(object)
        }
    }
}

fn json(text: &str) -> Json {
    to_json(&serde_json::from_str(text).expect("fixture is JSON"))
}

fn declared(text: &str) -> Declared {
    Declared::from_text(text, "<declared>").expect("parses")
}

const NOW: &str = "2026-04-28T12:00:00Z";

#[test]
fn first_apply_writes_declared_values_and_takes_the_image() {
    let declared = declared(r#"{ "editor": { "tabSize": 4 } }"#);
    let outcome = Reconciler::reconcile(
        &declared,
        &json("{}"),
        Snapshot::empty("snap.json".to_string()),
        NOW,
    )
    .expect("apply");
    assert_eq!(outcome.live.pointer("/editor/tabSize"), Some(&json("4")));
    assert_eq!(outcome.snapshot.image(), &outcome.live);
    assert!(outcome.drift.is_empty(), "no drift on first run");
}

#[test]
fn apply_keeps_user_keys_declared_does_not_mention() {
    let declared = declared(r#"{ "editor": { "tabSize": 4 } }"#);
    let live = json(r#"{ "editor": { "tabSize": 2, "lineNumbers": true } }"#);
    let outcome =
        Reconciler::reconcile(&declared, &live, Snapshot::empty("s".to_string()), NOW).expect("apply");
    assert_eq!(outcome.live.pointer("/editor/tabSize"), Some(&json("4")));
    assert_eq!(outcome.live.pointer("/editor/lineNumbers"), Some(&json("true")));
}

#[test]
fn once_mode_marks_then_leaves_the_user_value_alone() {
    let declared = declared(
        r#"{
            "$hexis": { "schema": 1, "modes": { "/devtools/autoConnect": "once" } },
            "devtools": { "autoConnect": true }
        }"#,
    );
    let first = Reconciler::reconcile(&declared, &json("{}"), Snapshot::empty("s".to_string()), NOW)
        .expect("first apply");
    assert_eq!(first.live.pointer("/devtools/autoConnect"), Some(&json("true")));
    let pointer = JsonPointer::from_str("/devtools/autoConnect").unwrap();
    let marker = first.snapshot.marker(&pointer).expect("marker recorded");
    assert_eq!(marker.applied_at(), NOW);

    let user_live = json(r#"{ "devtools": { "autoConnect": false } }"#);
    let second = Reconciler::reconcile(&declared, &user_live, first.snapshot, "later").expect("second apply");
    assert_eq!(second.live.pointer("/devtools/autoConnect"), Some(&json("false")));
}

#[test]
fn second_apply_reports_user_drift() {
    let declared = declared(r#"{ "editor": { "tabSize": 4 } }"#);
    let first = Reconciler::reconcile(&declared, &json("{}"), Snapshot::empty("s".to_string()), NOW)
        .expect("first apply");
    let user_live = json(r#"{ "editor": { "tabSize": 4, "wordWrap": "on" } }"#);
    let second = Reconciler::reconcile(&declared, &user_live, first.snapshot, "later").expect("second apply");
    assert_eq!(
        second.drift.as_value(),
        &json(r#"{ "editor": { "wordWrap": "on" } }"#)
    );
    let commit = Reconciler::commit(false, &second.drift);
    assert!(commit.write_live && commit.write_snapshot && commit.write_drift);
}

#[test]
fn always_mode_overwrites_user_drift() {
    let declared = declared(
        r#"{
            "$hexis": { "schema": 1, "modes": { "/security/sandbox": "always" } },
            "security": { "sandbox": true }
        }"#,
    );
    let live = json(r#"{ "security": { "sandbox": false } }"#);
    let outcome = Reconciler::reconcile(&declared, &live, Snapshot::empty("s".to_string()), NOW).expect("apply");
    assert_eq!(
        outcome.live.pointer("/security/sandbox"),
        Some(&json("true")),
        "always-mode overrides user value",
    );
}

#[test]
fn always_mode_overwrites_user_drift_in_the_written_file() {
    let declared = r#"{
            "$hexis": { "schema": 1, "modes": { "/security/sandbox": "always" } },
            "security": { "sandbox": true }
        }"#;
    let writing = Reconciler::apply(&reading(declared, Some(r#"{ "security": { "sandbox": false } }"#), None), NOW, false)
        .expect("apply");
    let live = Live::from_text_for_test(writing.live_text.as_deref().unwrap()).expect("read live");
    assert_eq!(live.data().pointer("/security/sandbox"), Some(&json("true")));
}

#[test]
fn second_pass_over_unchanged_file_changes_nothing() {
    let declared = declared(
        r#"{
            "$hexis": { "schema": 1, "modes": { "/a": "once", "/b": "always" } },
            "a": 1, "b": { "c": 2 }, "d": "x"
        }"#,
    );
    let first = Reconciler::reconcile(&declared, &json(r#"{ "u": 0 }"#), Snapshot::empty("s".to_string()), NOW)
        .expect("first apply");
    let live = first.live.deep_copy();
    let second = Reconciler::reconcile(&declared, &live, first.snapshot, "later").expect("second apply");
    assert_eq!(second.live, live);
    assert!(second.drift.is_empty());
    assert!(!Reconciler::commit(false, &second.drift).write_drift);
}

#[test]
fn non_object_live_root_is_replaced_by_an_object() {
    let declared = declared(r#"{ "k": 1 }"#);
    let outcome = Reconciler::reconcile(&declared, &json("[1, 2]"), Snapshot::empty("s".to_string()), NOW)
        .expect("apply");
    assert_eq!(outcome.live, json(r#"{ "k": 1 }"#));
}

#[test]
fn writing_through_a_user_scalar_fails() {
    let declared = declared(r#"{ "editor": { "tabSize": 4 } }"#);
    let result = Reconciler::reconcile(&declared, &json(r#"{ "editor": 5 }"#), Snapshot::empty("s".to_string()), NOW);
    assert!(matches!(result, Err(Error::PointerThroughNonObject(_))));
}

#[test]
fn dry_run_commits_nothing() {
    let drift = DriftPatch::from_value(json(r#"{ "k": 1 }"#));
    let commit = Reconciler::commit(true, &drift);
    assert!(!commit.write_live && !commit.write_snapshot && !commit.write_drift);
}

fn reading(declared: &str, live: Option<&str>, snapshot: Option<String>) -> Reading {
    Reading {
        declared_path: "declared.json".to_string(),
        declared_text: declared.to_string(),
        live_path: "live.json".to_string(),
        live_text: live.map(|text| text.to_string()),
        snapshot_path: "snapshot/abc.json".to_string(),
        snapshot_text: snapshot,
    }
}

#[test]
fn apply_writes_live_and_snapshot_when_neither_exists() {
    let writing = Reconciler::apply(&reading(r#"{ "editor": { "tabSize": 4 } }"#, None, None), NOW, false)
        .expect("apply");
    let live = Live::from_text_for_test(writing.live_text.as_deref().expect("live written")).unwrap();
    assert_eq!(live.data().pointer("/editor/tabSize"), Some(&json("4")));
    let snapshot_text = writing.snapshot_text.as_deref();
    assert!(snapshot_text.is_some(), "snapshot file written");
    let snapshot = Snapshot::from_text_for_test(snapshot_text.unwrap()).expect("snapshot parses");
    assert_eq!(snapshot.image().pointer("/editor/tabSize"), Some(&json("4")));
}

#[test]
fn apply_first_run_does_not_emit_drift_report() {
    let writing = Reconciler::apply(&reading(r#"{ "editor": { "tabSize": 4 } }"#, None, None), NOW, false)
        .expect("apply");
    assert!(writing.drift.is_none(), "no drift report on first run");
}

#[test]
fn apply_preserves_user_keys_declared_does_not_mention() {
    let writing = Reconciler::apply(
        &reading(
            r#"{ "editor": { "tabSize": 4 } }"#,
            Some(r#"{ "editor": { "tabSize": 2, "lineNumbers": true } }"#),
            None,
        ),
        NOW,
        false,
    )
    .expect("apply");
    let live = Live::from_text_for_test(writing.live_text.as_deref().unwrap()).expect("read live");
    assert_eq!(live.data().pointer("/editor/tabSize"), Some(&json("4")));
    assert_eq!(live.data().pointer("/editor/lineNumbers"), Some(&json("true")));
}

#[test]
fn apply_dry_run_skips_writes() {
    let writing = Reconciler::apply(&reading(r#"{ "editor": { "tabSize": 4 } }"#, None, None), NOW, true)
        .expect("apply dry-run");
    assert!(writing.live_text.is_none(), "live not written in dry-run");
    assert!(writing.snapshot_text.is_none(), "snapshot not written in dry-run");
    assert!(writing.drift.is_none());
}

#[test]
fn once_mode_writes_marker_then_leaves_alone_on_second_pass() {
    let declared = r#"{
            "$hexis": { "schema": 1, "modes": { "/devtools/autoConnect": "once" } },
            "devtools": { "autoConnect": true }
        }"#;
    let first = Reconciler::apply(&reading(declared, None, None), NOW, false).expect("first apply");
    let live_after_first = Live::from_text_for_test(first.live_text.as_deref().unwrap()).expect("first live");
    assert_eq!(live_after_first.data().pointer("/devtools/autoConnect"), Some(&json("true")));
    let snapshot = Snapshot::from_text_for_test(first.snapshot_text.as_deref().unwrap()).expect("first snapshot");
    let pointer = JsonPointer::from_str("/devtools/autoConnect").unwrap();
    assert!(snapshot.marker(&pointer).is_some(), "marker recorded");

    let second = Reconciler::apply(
        &reading(declared, Some(r#"{ "devtools": { "autoConnect": false } }"#), first.snapshot_text),
        NOW,
        false,
    )
    .expect("second apply");
    let live_after_second = Live::from_text_for_test(second.live_text.as_deref().unwrap()).expect("second live");
    assert_eq!(
        live_after_second.data().pointer("/devtools/autoConnect"),
        Some(&json("false")),
        "once-mode + marker → user value survives",
    );
}

#[test]
fn second_apply_with_drift_emits_drift_report() {
    let declared = r#"{ "editor": { "tabSize": 4 } }"#;
    let first = Reconciler::apply(&reading(declared, None, None), NOW, false).expect("first apply");
    let second = Reconciler::apply(
        &reading(declared, Some(r#"{ "editor": { "tabSize": 4, "wordWrap": "on" } }"#), first.snapshot_text),
        NOW,
        false,
    )
    .expect("second apply");
    let entry = second.drift.expect("drift report exists after second apply");
    let drift_text = DriftJournal::record(None, "drift/abc.json", entry).expect("read drift");
    let journal = Json::from_text(&drift_text).expect("parse drift journal");
    assert_eq!(journal.pointer("/schema"), Some(&json("1")), "drift journal carries schema version");
    assert!(journal.pointer("/entries/0/applied_at").is_some(), "first entry has applied_at");
    assert_eq!(
        journal.pointer("/entries/0/drift/editor/wordWrap"),
        Some(&json(r#""on""#)),
        "drift records the user's added key",
    );
}

#[test]
fn apply_updates_toml_live_file() {
    let declared = r#"{
            "$hexis": { "schema": 1, "modes": { "/build/jobs": "always" } },
            "build": { "jobs": 2 }
        }"#;
    let live_text = r#"
        [build]
        jobs = 8

        [term]
        verbose = true
        "#;
    let mut input = reading(declared, Some(live_text), None);
    input.live_path = "config.toml".to_string();
    let writing = Reconciler::apply(&input, NOW, false).expect("apply");
    let text = writing.live_text.expect("live written");
    let live = Live::from_text_for_test_at_path(&text, "config.toml".to_string()).expect("read live");
    assert_eq!(live.data().pointer("/build/jobs"), Some(&json("2")));
    assert_eq!(live.data().pointer("/term/verbose"), Some(&json("true")));
    assert!(text.contains("[build]"), "TOML table survives");
    assert!(text.contains("jobs = 2"), "always-mode rewrites Cargo jobs cap");
}

#[test]
fn each_unreadable_file_is_named_in_its_error() {
    assert!(matches!(
        Reconciler::apply(&reading("{ nope", None, None), NOW, false),
        Err(Error::DeclaredParse { ref source_path, .. }) if source_path == "declared.json"
    ));
    assert!(matches!(
        Reconciler::apply(&reading("{}", Some("[1,"), None), NOW, false),
        Err(Error::LiveParse { ref source_path, .. }) if source_path == "live.json"
    ));
    assert!(matches!(
        Reconciler::apply(&reading("{}", None, Some(r#"{ "schema": 2 }"#.to_string())), NOW, false),
        Err(Error::SnapshotParse { ref source_path, .. }) if source_path == "snapshot/abc.json"
    ));
    assert!(matches!(
        Reconciler::apply(&reading(r#"{ "a": { "b": 1 } }"#, Some(r#"{ "a": 3 }"#), None), NOW, false),
        Err(Error::PointerThroughNonObject(_))
    ));
}

#[test]
fn a_live_file_toml_cannot_hold_is_refused_before_anything_is_written() {
    let mut input = reading(r#"{ "k": null }"#, None, None);
    input.live_path = "config.toml".to_string();
    assert!(matches!(
        Reconciler::apply(&input, NOW, false),
        Err(Error::LiveWrite { ref destination_path, .. }) if destination_path == "config.toml"
    ));
    assert!(Reconciler::apply(&input, NOW, true).is_ok(), "a dry run renders nothing");
}

#[test]
fn a_mode_flipped_away_from_once_drops_its_marker_and_flipping_back_seeds_again() {
    let once = r#"{
            "$hexis": { "schema": 1, "modes": { "/x": "once" } },
            "x": 1
        }"#;
    let ensure = r#"{
            "$hexis": { "schema": 1, "modes": { "/x": "ensure" } },
            "x": 2
        }"#;
    let pointer = JsonPointer::from_str("/x").unwrap();
    let first = Reconciler::apply(&reading(once, None, None), NOW, false).expect("first apply");
    let snapshot = Snapshot::from_text_for_test(first.snapshot_text.as_deref().unwrap()).unwrap();
    assert!(snapshot.marker(&pointer).is_some(), "marker recorded");

    let second = Reconciler::apply(&reading(ensure, first.live_text.as_deref(), first.snapshot_text), NOW, false)
        .expect("second apply");
    let snapshot = Snapshot::from_text_for_test(second.snapshot_text.as_deref().unwrap()).unwrap();
    assert!(snapshot.marker(&pointer).is_none(), "marker dropped once the mode left once");

    let user_live = r#"{ "x": 7 }"#;
    let third = Reconciler::apply(&reading(once, Some(user_live), second.snapshot_text), "later", false)
        .expect("third apply");
    let live = Live::from_text_for_test(third.live_text.as_deref().unwrap()).unwrap();
    assert_eq!(live.data().pointer("/x"), Some(&json("1")), "once seeds the value again");
    let snapshot = Snapshot::from_text_for_test(third.snapshot_text.as_deref().unwrap()).unwrap();
    assert_eq!(snapshot.marker(&pointer).unwrap().applied_at(), "later");
}

#[test]
fn a_once_marker_under_a_once_mode_is_kept() {
    let mut snapshot = Snapshot::empty("s".to_string());
    let kept = JsonPointer::from_str("/a/b").unwrap();
    let dropped = JsonPointer::from_str("/c").unwrap();
    snapshot.set_marker(kept.duplicate(), hexis_cli::snapshot::Marker::new("t".to_string(), json("1")));
    snapshot.set_marker(dropped.duplicate(), hexis_cli::snapshot::Marker::new("t".to_string(), json("1")));
    let declared = declared(r#"{ "$hexis": { "schema": 1, "modes": { "/a": "once" } } }"#);
    snapshot.keep_once_markers(&declared);
    assert!(snapshot.marker(&kept).is_some());
    assert!(snapshot.marker(&dropped).is_none());
}
