//! Smoke tests: modes render, the default mode, error messages, phases and
//! routing.

use hexis_cli::reconciler::{Phase, PhaseReport};
use hexis_cli::supervisor::{Message, Route, Supervisor};
use hexis_cli::{Error, FileId, Mode};

#[test]
fn modes_render_as_lowercase_words() {
    assert_eq!(Mode::Once.to_string(), "once");
    assert_eq!(Mode::Ensure.to_string(), "ensure");
    assert_eq!(Mode::Always.to_string(), "always");
}

#[test]
fn default_mode_is_ensure() {
    assert_eq!(Mode::default(), Mode::Ensure);
    assert_eq!(Mode::DEFAULT, Mode::Ensure);
}

#[test]
fn not_yet_implemented_renders() {
    let error = Error::NotYetImplemented("apply");
    let rendered = error.message();
    assert!(rendered.contains("apply"));
    assert!(rendered.contains("scaffold"));
}

#[test]
fn mode_names_read_back() {
    assert_eq!(Mode::from_name("once"), Some(Mode::Once));
    assert_eq!(Mode::from_name("always"), Some(Mode::Always));
    assert_eq!(Mode::from_name("weird"), None);
}

#[test]
fn phases_report_failures_by_message() {
    assert_eq!(Phase::Idle.report(), PhaseReport::Idle);
    assert_eq!(Phase::Committed.report(), PhaseReport::Committed);
    let failed = Phase::Failed(Error::Io("disk full".to_string())).report();
    assert_eq!(failed, PhaseReport::Failed("io: disk full".to_string()));
}

#[test]
fn error_messages_name_path_and_reason() {
    let error = Error::SnapshotParse {
        source_path: "/state/a.json".to_string(),
        reason: "schema must be 1".to_string(),
    };
    assert_eq!(error.message(), "parse snapshot /state/a.json: schema must be 1");
}

fn ids(names: &[&str]) -> Vec<FileId> {
    names.iter().map(|name| FileId::new(name.to_string())).collect()
}

#[test]
fn apply_routes_to_the_latest_target_with_that_id() {
    let targets = ids(&["a", "b", "a"]);
    let route = Supervisor::route(&Message::Apply { file_id: FileId::new("a".to_string()) }, &targets);
    assert!(matches!(route, Route::Run(ref ix) if ix == &vec![2]));
    let none = Supervisor::route(&Message::Apply { file_id: FileId::new("z".to_string()) }, &targets);
    assert!(matches!(none, Route::Run(ref ix) if ix.is_empty()));
}

#[test]
fn apply_all_routes_once_per_id() {
    let targets = ids(&["a", "b", "a"]);
    let route = Supervisor::route(&Message::ApplyAll, &targets);
    assert!(matches!(route, Route::Run(ref ix) if ix == &vec![1, 2]));
    assert!(matches!(Supervisor::route(&Message::Propose, &targets), Route::ProposeNow));
    assert!(matches!(Supervisor::route(&Message::Shutdown, &targets), Route::Stop));
}
