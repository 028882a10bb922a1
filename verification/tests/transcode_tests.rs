use mongodb_ro::{clear_doc, detect_operator, hidden_fields, rename_plain, ColumnAttr, Doc, Model,
    Schema, Value};

fn attr(
    asc: bool,
    desc: bool,
    unique: bool,
    hidden: bool,
    text: Option<&str>,
    name: Option<&str>,
) -> ColumnAttr {
    ColumnAttr {
        asc,
        desc,
        unique,
        sphere2d: false,
        text: text.map(|s| s.to_string()),
        hidden,
        name: name.map(|s| s.to_string()),
    }
}

/// A record type with a plain field, a unique ascending field, and a hidden
/// field stored under a wire name.
fn user_schema() -> Schema {
    let mut s = Schema::new();
    s.insert("name", attr(false, false, false, false, None, None));
    s.insert("phone", attr(true, false, true, false, None, None));
    s.insert("password", attr(false, false, false, true, None, Some("pswd")));
    s
}

fn user_template() -> Doc {
    let mut t = Doc::new();
    t.insert("name", Value::Str(String::new()));
    t.insert("phone", Value::Str(String::new()));
    t.insert("password", Value::Str(String::new()));
    t
}

#[test]
fn rename_moves_declared_wire_names_only() {
    let schema = user_schema();
    let mut d = Doc::new();
    d.insert("name", Value::Str("ada".to_string()));
    d.insert("password", Value::Str("secret".to_string()));
    rename_plain(&schema, &mut d);
    assert_eq!(d.get("name"), Some(&Value::Str("ada".to_string())));
    assert!(!d.contains_key("password"));
    assert_eq!(d.get("pswd"), Some(&Value::Str("secret".to_string())));
}

#[test]
fn detect_operator_sees_dollar_keys() {
    let mut plain = Doc::new();
    plain.insert("age", Value::Int32(25));
    assert!(!detect_operator(&plain));

    let mut sub = Doc::new();
    sub.insert("age", Value::Int32(25));
    let mut op = Doc::new();
    op.insert("$set", Value::Doc(sub));
    assert!(detect_operator(&op));
}

#[test]
fn hidden_fields_respects_visibility_override() {
    let schema = user_schema();
    let hidden = hidden_fields(&schema, &vec![]);
    assert_eq!(hidden, vec!["password".to_string()]);

    let hidden = hidden_fields(&schema, &vec!["password".to_string()]);
    assert!(hidden.is_empty());
}

#[test]
fn stored_document_uses_wire_name_and_hides_nothing_it_should_not() {
    // the example record: after creating an instance with a secret password,
    // the stored document carries a pswd key and no password key
    let schema = user_schema();
    let model = Model::new("user".to_string(), schema, false);
    let mut record = Doc::new();
    record.insert("name", Value::Str("ada".to_string()));
    record.insert("phone", Value::Str("555".to_string()));
    record.insert("password", Value::Str("secret".to_string()));
    let stored = model.create_plan(record, 0);
    assert!(stored.contains_key("pswd"));
    assert!(!stored.contains_key("password"));
    assert_eq!(stored.get("pswd"), Some(&Value::Str("secret".to_string())));
}

#[test]
fn masking_round_trip_hides_by_default_and_shows_on_override() {
    let schema = user_schema();
    let model = Model::new("user".to_string(), schema, false);
    let mut record = Doc::new();
    record.insert("name", Value::Str("ada".to_string()));
    record.insert("phone", Value::Str("555".to_string()));
    record.insert("password", Value::Str("secret".to_string()));
    let stored = model.create_plan(record, 0);

    // default read: the hidden field keeps the template's default value
    let hidden = model.hidden_fields();
    let back = model.clear(&stored, user_template(), &hidden);
    assert_eq!(back.get("name"), Some(&Value::Str("ada".to_string())));
    assert_eq!(back.get("phone"), Some(&Value::Str("555".to_string())));
    assert_eq!(back.get("password"), Some(&Value::Str(String::new())));

    // a read with the field made visible yields the stored value
    let model = model.visible(vec!["password".to_string()]);
    let mut record = Doc::new();
    record.insert("password", Value::Str("secret".to_string()));
    let stored = model.create_plan(record, 0);
    let hidden = model.hidden_fields();
    assert!(hidden.is_empty());
    let back = model.clear(&stored, user_template(), &hidden);
    assert_eq!(back.get("password"), Some(&Value::Str("secret".to_string())));
}

#[test]
fn renaming_round_trip_restores_identifier_keys() {
    // whatever wire name a field is stored under, the typed read path
    // reconstructs the identifier-keyed value
    let schema = user_schema();
    let mut d = Doc::new();
    d.insert("name", Value::Str("grace".to_string()));
    d.insert("password", Value::Str("pw".to_string()));
    rename_plain(&schema, &mut d);
    let schema = user_schema();
    let back = clear_doc(&schema, &d, user_template(), &vec![]);
    assert_eq!(back.get("name"), Some(&Value::Str("grace".to_string())));
    assert_eq!(back.get("password"), Some(&Value::Str("pw".to_string())));
    assert!(!back.contains_key("pswd"));
}

#[test]
fn clear_keeps_defaults_for_absent_fields() {
    let schema = user_schema();
    let mut stored = Doc::new();
    stored.insert("name", Value::Str("solo".to_string()));
    let back = clear_doc(&schema, &stored, user_template(), &vec![]);
    assert_eq!(back.get("name"), Some(&Value::Str("solo".to_string())));
    assert_eq!(back.get("phone"), Some(&Value::Str(String::new())));
}

#[test]
fn columns_sharing_a_wire_name_each_receive_the_stored_value() {
    // the stored document is read, never consumed: a column whose wire
    // name equals another column's identifier still sees the value
    let mut schema = Schema::new();
    schema.insert("a", attr(false, false, false, false, None, Some("b")));
    schema.insert("b", attr(false, false, false, false, None, None));
    let mut stored = Doc::new();
    stored.insert("b", Value::Str("shared".to_string()));
    let mut template = Doc::new();
    template.insert("a", Value::Str(String::new()));
    template.insert("b", Value::Str(String::new()));
    let back = clear_doc(&schema, &stored, template, &vec![]);
    assert_eq!(back.get("a"), Some(&Value::Str("shared".to_string())));
    assert_eq!(back.get("b"), Some(&Value::Str("shared".to_string())));
}

#[test]
fn clear_copies_nested_values_deeply() {
    let schema = user_schema();
    let mut inner = Doc::new();
    inner.insert("city", Value::Str("basel".to_string()));
    let mut stored = Doc::new();
    stored.insert("name", Value::Doc(inner));
    stored.insert("phone", Value::Arr(vec![Value::Int32(1), Value::Int32(2)]));
    let back = clear_doc(&schema, &stored, user_template(), &vec![]);
    match back.get("name") {
        Some(Value::Doc(d)) => assert_eq!(d.get("city"), Some(&Value::Str("basel".to_string()))),
        other => panic!("expected the nested document back, got {:?}", other),
    }
    match back.get("phone") {
        Some(Value::Arr(vs)) => assert_eq!(vs, &vec![Value::Int32(1), Value::Int32(2)]),
        other => panic!("expected the array back, got {:?}", other),
    }
    // the source document is untouched
    assert!(stored.contains_key("name"));
    assert!(stored.contains_key("phone"));
}
