//! Tests for the JSON value tree: objects, copies and equality.

use hexis_cli::json::{Json, JsonObject};

#[test]
fn object_insert_get_remove() {
    let mut object = JsonObject::new();
    assert!(object.is_empty());
    object.insert("a".to_string(), Json::number("1"));
    object.insert("b".to_string(), Json::string("x"));
    object.insert("a".to_string(), Json::Bool(true));
    assert_eq!(object.len(), 2);
    assert_eq!(object.get("a"), Some(&Json::Bool(true)));
    assert_eq!(object.remove("b"), Some(Json::string("x")));
    assert!(object.get("b").is_none());
    assert!(object.remove("b").is_none());
}

#[test]
fn equality_ignores_member_order() {
    let mut first = JsonObject::new();
    first.insert("a".to_string(), Json::number("1"));
    first.insert("b".to_string(), Json::number("2"));
    let mut second = JsonObject::new();
    second.insert("b".to_string(), Json::number("2"));
    second.insert("a".to_string(), Json::number("1"));
    assert_eq!(Json::Object(first), Json::Object(second));
    assert_ne!(Json::number("1"), Json::number("1.0"));
    assert_ne!(Json::Null, Json::Bool(false));
}

#[test]
fn deep_copy_is_equal_and_independent() {
    let mut inner = JsonObject::new();
    inner.insert("k".to_string(), Json::array(vec![Json::Null, Json::number("3")]));
    let source = Json::Object(inner);
    let mut copy = source.deep_copy();
    assert_eq!(copy, source);
    if let Json::Object(object) = &mut copy {
        object.insert("extra".to_string(), Json::Null);
    }
    assert_ne!(copy, source);
    assert_eq!(source.array_item(0), None);
}
