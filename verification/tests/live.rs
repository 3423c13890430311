//! Tests for the live file: reading JSON and TOML text, the empty live,
//! the format a path calls for, and the text written back.

use hexis_cli::json::Json;
use hexis_cli::live::{Live, LiveFormat};
use hexis_cli::Error;

#[test]
fn parse_valid_json() {
    let live = Live::from_text_for_test(r#"{ "editor": { "tabSize": 2 } }"#).expect("parses");
    assert_eq!(live.data().pointer("/editor/tabSize"), Some(&Json::number("2")));
}

#[test]
fn live_parse_rejects_malformed_json() {
    let result = Live::from_text_for_test(r#"{ this is not json"#);
    assert!(matches!(result, Err(Error::LiveParse { .. })));
}

#[test]
fn parse_valid_toml() {
    let live = Live::from_text_for_test_at_path(
        r#"
        [build]
        jobs = 2
        "#,
        "config.toml".to_string(),
    )
    .expect("parses");
    assert_eq!(live.data().pointer("/build/jobs"), Some(&Json::number("2")));
}

#[test]
fn parse_rejects_malformed_toml() {
    let result = Live::from_text_for_test_at_path(r#"[build"#, "config.toml".to_string());
    assert!(matches!(result, Err(Error::LiveParse { .. })));
}

#[test]
fn empty_carries_object_root() {
    let live = Live::empty("/tmp/example.json".to_string());
    assert!(live.data().is_object());
    assert_eq!(live.data().as_object().unwrap().len(), 0);
}

#[test]
fn format_follows_the_extension() {
    assert_eq!(LiveFormat::from_path("config.toml"), LiveFormat::Toml);
    assert_eq!(LiveFormat::from_path("/etc/app/settings.json"), LiveFormat::Json);
    assert_eq!(LiveFormat::from_path("no-extension"), LiveFormat::Json);
    assert_eq!(LiveFormat::from_extension(Some("toml")), LiveFormat::Toml);
    assert_eq!(LiveFormat::from_extension(Some("TOML")), LiveFormat::Json);
    assert_eq!(LiveFormat::from_extension(None), LiveFormat::Json);
}

#[test]
fn empty_live_takes_its_format_from_the_path() {
    assert_eq!(Live::empty("config.toml".to_string()).format(), LiveFormat::Toml);
    assert_eq!(Live::empty("config.json".to_string()).format(), LiveFormat::Json);
}

#[test]
fn json_text_parses_under_any_non_toml_path() {
    let live = Live::from_text_for_test_at_path(r#"{ "k": "v" }"#, "present.json".to_string())
        .expect("parses");
    assert_eq!(live.format(), LiveFormat::Json);
    assert_eq!(live.source_path(), "present.json");
    assert_eq!(live.data().pointer("/k"), Some(&Json::string("v")));
}

#[test]
fn parse_error_names_the_source_file() {
    match Live::from_text_for_test_at_path("{", "/home/u/settings.json".to_string()) {
        Err(Error::LiveParse { source_path, reason }) => {
            assert_eq!(source_path, "/home/u/settings.json");
            assert!(!reason.is_empty());
        }
        other => panic!("expected a parse error, got {:?}", other),
    }
}

#[test]
fn rendered_json_reads_back() {
    let mut live = Live::empty("settings.json".to_string());
    let data = Live::from_text_for_test(r#"{ "editor": { "tabSize": 4 } }"#).unwrap();
    live.set_data(data.data().deep_copy());
    let text = live.render("settings.json").expect("renders");
    assert!(text.ends_with('\n'));
    let read_back = Live::from_text_for_test_at_path(&text, "settings.json".to_string()).unwrap();
    assert_eq!(read_back.data().pointer("/editor/tabSize"), Some(&Json::number("4")));
}

#[test]
fn rendered_toml_keeps_tables_and_reads_back() {
    let mut live = Live::empty("config.toml".to_string());
    let data = Live::from_text_for_test(r#"{ "build": { "jobs": 2 } }"#).unwrap();
    live.set_data(data.data().deep_copy());
    let text = live.render("config.toml").expect("renders");
    assert!(text.contains("[build]"), "writes TOML tables");
    assert!(text.contains("jobs = 2"), "writes TOML values");
    let read_back = Live::from_text_for_test_at_path(&text, "config.toml".to_string()).unwrap();
    assert_eq!(read_back.data().pointer("/build/jobs"), Some(&Json::number("2")));
}

#[test]
fn rendering_to_another_path_takes_that_path_format() {
    let data = Live::from_text_for_test(r#"{ "build": { "jobs": 2 } }"#).unwrap();
    let text = data.render("elsewhere/config.toml").expect("renders");
    assert!(text.contains("[build]"));
    let json_text = data.render("<test>").expect("renders");
    assert!(json_text.starts_with('{'));
}

#[test]
fn toml_cannot_hold_a_null() {
    let data = Live::from_text_for_test_at_path(r#"{ "k": null }"#, "x.json".to_string()).unwrap();
    match data.render("x.toml") {
        Err(Error::LiveWrite { destination_path, reason }) => {
            assert_eq!(destination_path, "x.toml");
            assert!(reason.starts_with("serialize TOML: "));
        }
        other => panic!("expected a write error, got {:?}", other),
    }
}

#[test]
fn changes_through_data_mut_are_rendered() {
    let mut live = Live::from_text_for_test(r#"{ "editor": { "tabSize": 2 } }"#).unwrap();
    if let Json::Object(object) = live.data_mut() {
        object.insert("trailing".to_string(), Json::Bool(true));
    }
    let text = live.render("<test>").expect("renders");
    let read_back = Live::from_text_for_test(&text).unwrap();
    assert_eq!(read_back.data().pointer("/trailing"), Some(&Json::Bool(true)));
    assert_eq!(read_back.data().pointer("/editor/tabSize"), Some(&Json::number("2")));
}

#[test]
fn format_follows_the_file_name_after_its_last_dot() {
    assert_eq!(LiveFormat::from_path("a.b.toml"), LiveFormat::Toml);
    assert_eq!(LiveFormat::from_path("..toml"), LiveFormat::Toml);
    assert_eq!(LiveFormat::from_path("/home/u/.config/app/config.toml"), LiveFormat::Toml);
    assert_eq!(LiveFormat::from_path(".toml"), LiveFormat::Json);
    assert_eq!(LiveFormat::from_path("/etc/dir.toml/config"), LiveFormat::Json);
    assert_eq!(LiveFormat::from_path("config.toml.bak"), LiveFormat::Json);
    assert_eq!(LiveFormat::from_path("notes.txt"), LiveFormat::Json);
}
