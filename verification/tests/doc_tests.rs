use mongodb_ro::{Doc, Value};

#[test]
fn empty_doc_has_no_fields() {
    let d = Doc::new();
    assert_eq!(d.len(), 0);
    assert!(!d.contains_key("name"));
    assert!(d.get("name").is_none());
}

#[test]
fn insert_then_get_returns_value() {
    let mut d = Doc::new();
    d.insert("name", Value::Str("ada".to_string()));
    assert_eq!(d.len(), 1);
    assert!(d.contains_key("name"));
    assert_eq!(d.get("name"), Some(&Value::Str("ada".to_string())));
}

#[test]
fn insert_replaces_existing_value() {
    let mut d = Doc::new();
    d.insert("age", Value::Int32(1));
    d.insert("age", Value::Int32(2));
    assert_eq!(d.len(), 1);
    assert_eq!(d.get("age"), Some(&Value::Int32(2)));
}

#[test]
fn take_removes_and_returns() {
    let mut d = Doc::new();
    d.insert("a", Value::Bool(true));
    d.insert("b", Value::Null);
    let v = d.take("a");
    assert_eq!(v, Some(Value::Bool(true)));
    assert!(!d.contains_key("a"));
    assert!(d.contains_key("b"));
    assert_eq!(d.take("a"), None);
}

#[test]
fn rename_key_moves_value() {
    let mut d = Doc::new();
    d.insert("password", Value::Str("secret".to_string()));
    d.rename_key("password", "pswd");
    assert!(!d.contains_key("password"));
    assert_eq!(d.get("pswd"), Some(&Value::Str("secret".to_string())));
}

#[test]
fn rename_key_absent_is_noop() {
    let mut d = Doc::new();
    d.insert("a", Value::Int64(7));
    d.rename_key("x", "y");
    assert_eq!(d.len(), 1);
    assert_eq!(d.get("a"), Some(&Value::Int64(7)));
}

#[test]
fn rename_key_replaces_target() {
    let mut d = Doc::new();
    d.insert("a", Value::Int32(1));
    d.insert("b", Value::Int32(2));
    d.rename_key("a", "b");
    assert_eq!(d.len(), 1);
    assert_eq!(d.get("b"), Some(&Value::Int32(1)));
}

#[test]
fn keys_lists_names_in_order() {
    let mut d = Doc::new();
    d.insert("x", Value::Null);
    d.insert("y", Value::Null);
    let ks = d.keys();
    assert_eq!(ks, vec!["x".to_string(), "y".to_string()]);
}

#[test]
fn into_pairs_round_trip() {
    let mut d = Doc::new();
    d.insert("k", Value::Double(1u64 << 62));
    let pairs = d.into_pairs();
    assert_eq!(pairs.len(), 1);
    assert_eq!(pairs[0].0, "k");
    assert_eq!(pairs[0].1, Value::Double(1u64 << 62));
}

#[test]
fn nested_documents_and_arrays_hold() {
    let mut inner = Doc::new();
    inner.insert("n", Value::Int32(5));
    let mut d = Doc::new();
    d.insert("sub", Value::Doc(inner));
    d.insert("list", Value::Arr(vec![Value::Int32(1), Value::Int32(2)]));
    match d.get("sub") {
        Some(Value::Doc(s)) => assert_eq!(s.get("n"), Some(&Value::Int32(5))),
        other => panic!("expected a nested document, got {:?}", other),
    }
    match d.get("list") {
        Some(Value::Arr(vs)) => assert_eq!(vs.len(), 2),
        other => panic!("expected an array, got {:?}", other),
    }
}
