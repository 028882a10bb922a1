use mongodb_ro::{delete_many_result, update_many_result, ColumnAttr, Doc, Model, Schema,
    UsageError, Value};

fn plain_attr(hidden: bool, name: Option<&str>) -> ColumnAttr {
    ColumnAttr {
        asc: false,
        desc: false,
        unique: false,
        sphere2d: false,
        text: None,
        hidden,
        name: name.map(|s| s.to_string()),
    }
}

fn user_schema() -> Schema {
    let mut s = Schema::new();
    s.insert("age", plain_attr(false, None));
    s.insert("password", plain_attr(true, Some("pswd")));
    s
}

fn timestamped_model() -> Model {
    Model::new("user".to_string(), user_schema(), true)
}

fn name_filter() -> Doc {
    let mut f = Doc::new();
    f.insert("name", Value::Str("ada".to_string()));
    f
}

#[test]
fn update_without_filter_fails_fast() {
    let mut m = timestamped_model();
    let mut payload = Doc::new();
    payload.insert("age", Value::Int32(25));
    let r = m.update_plan(payload, 7);
    assert_eq!(r.err(), Some(UsageError::FilterRequired));
}

#[test]
fn delete_without_filter_fails_fast() {
    let mut m = timestamped_model();
    let r = m.delete_plan();
    assert_eq!(r.err(), Some(UsageError::FilterRequired));
}

#[test]
fn plain_update_payload_is_wrapped_and_stamped() {
    // payload {age: 25} with no operator key and timestamping on becomes
    // {"$set": {age: 25, updated_at: <now>}}
    let mut m = timestamped_model().where_doc(name_filter());
    let mut payload = Doc::new();
    payload.insert("age", Value::Int32(25));
    let plan = m.update_plan(payload, 777).unwrap();
    assert_eq!(plan.update.len(), 1);
    match plan.update.get("$set") {
        Some(Value::Doc(set)) => {
            assert_eq!(set.len(), 2);
            assert_eq!(set.get("age"), Some(&Value::Int32(25)));
            assert_eq!(set.get("updated_at"), Some(&Value::DateTime(777)));
        },
        other => panic!("expected a set operator document, got {:?}", other),
    }
    assert!(!plan.many);
    assert!(!plan.upsert);
}

#[test]
fn operator_update_renames_one_level_down() {
    let mut m = timestamped_model().where_doc(name_filter());
    let mut sub = Doc::new();
    sub.insert("password", Value::Str("x".to_string()));
    let mut payload = Doc::new();
    payload.insert("$set", Value::Doc(sub));
    let plan = m.update_plan(payload, 9).unwrap();
    match plan.update.get("$set") {
        Some(Value::Doc(set)) => {
            assert!(!set.contains_key("password"));
            assert_eq!(set.get("pswd"), Some(&Value::Str("x".to_string())));
            assert_eq!(set.get("updated_at"), Some(&Value::DateTime(9)));
        },
        other => panic!("expected a set operator document, got {:?}", other),
    }
}

#[test]
fn upsert_update_stamps_creation_on_insert() {
    let mut m = timestamped_model().where_doc(name_filter()).upsert();
    let mut payload = Doc::new();
    payload.insert("age", Value::Int32(1));
    let plan = m.update_plan(payload, 5).unwrap();
    assert!(plan.upsert);
    match plan.update.get("$setOnInsert") {
        Some(Value::Doc(soi)) => {
            assert_eq!(soi.get("created_at"), Some(&Value::DateTime(5)));
            assert_eq!(soi.len(), 1);
        },
        other => panic!("expected a set-on-insert document, got {:?}", other),
    }
}

#[test]
fn consecutive_upserts_share_the_same_filter() {
    // two upsert-updates configured the same way compile to the same filter
    // and both carry the upsert flag, so the driver mutates one identity
    let mut m1 = timestamped_model().where_doc(name_filter()).upsert();
    let mut payload1 = Doc::new();
    payload1.insert("age", Value::Int32(1));
    let p1 = m1.update_plan(payload1, 5).unwrap();

    let mut m2 = timestamped_model().where_doc(name_filter()).upsert();
    let mut payload2 = Doc::new();
    payload2.insert("age", Value::Int32(2));
    let p2 = m2.update_plan(payload2, 6).unwrap();

    assert!(p1.upsert && p2.upsert);
    assert!(!p1.many && !p2.many);
    assert_eq!(p1.filter, p2.filter);
}

#[test]
fn update_without_timestamping_leaves_payload_bare() {
    let mut m = Model::new("user".to_string(), user_schema(), false).where_doc(name_filter());
    let mut payload = Doc::new();
    payload.insert("age", Value::Int32(3));
    let plan = m.update_plan(payload, 1).unwrap();
    match plan.update.get("$set") {
        Some(Value::Doc(set)) => {
            assert_eq!(set.len(), 1);
            assert_eq!(set.get("age"), Some(&Value::Int32(3)));
        },
        other => panic!("expected a set operator document, got {:?}", other),
    }
}

#[test]
fn update_all_compiles_to_a_multi_document_plan() {
    let mut m = timestamped_model().where_doc(name_filter()).all();
    let mut payload = Doc::new();
    payload.insert("age", Value::Int32(4));
    let plan = m.update_plan(payload, 2).unwrap();
    assert!(plan.many);
}

#[test]
fn delete_plan_carries_flags_and_filter() {
    let mut m = timestamped_model().where_doc(name_filter()).all();
    let plan = m.delete_plan().unwrap();
    assert!(plan.many);
    assert!(plan.filter.contains_key("$and"));
}

#[test]
fn count_plan_maps_pagination_to_options() {
    // skip 2 and limit 2 are handed to the driver as count options, so five
    // matching documents count as two
    let mut m = timestamped_model().where_doc(name_filter()).skip(2).limit(2);
    let plan = m.count_plan();
    assert_eq!(plan.skip, Some(2));
    assert_eq!(plan.limit, Some(2));
    assert!(plan.filter.contains_key("$and"));
}

#[test]
fn count_plan_leaves_zero_pagination_unset() {
    let mut m = timestamped_model();
    let plan = m.count_plan();
    assert_eq!(plan.skip, None);
    assert_eq!(plan.limit, None);
    assert_eq!(plan.filter.len(), 0);
}

#[test]
fn find_plan_collects_builder_state() {
    let mut sort = Doc::new();
    sort.insert("age", Value::Int32(-1));
    let mut projection = Doc::new();
    projection.insert("name", Value::Int32(1));
    let mut m = timestamped_model()
        .where_doc(name_filter())
        .sort(sort)
        .select(projection)
        .skip(3)
        .limit(10);
    let plan = m.find_plan();
    assert_eq!(plan.skip, Some(3));
    assert_eq!(plan.limit, Some(10));
    assert!(plan.projection.is_some());
    assert_eq!(plan.sort.get("age"), Some(&Value::Int32(-1)));
    assert!(plan.filter.contains_key("$and"));
}

#[test]
fn first_plan_narrows_limit_to_one() {
    let mut m = timestamped_model().where_doc(name_filter()).limit(50);
    let plan = m.first_plan();
    assert_eq!(plan.limit, Some(1));
}

#[test]
fn empty_filter_list_compiles_to_the_empty_filter() {
    let mut m = timestamped_model();
    let f = m.distinct_plan();
    assert_eq!(f.len(), 0);
}

#[test]
fn filters_are_conjoined_under_one_key() {
    let mut second = Doc::new();
    second.insert("block", Value::Bool(false));
    let mut m = timestamped_model().where_doc(name_filter()).where_doc(second);
    let f = m.distinct_plan();
    assert_eq!(f.len(), 1);
    match f.get("$and") {
        Some(Value::Arr(clauses)) => {
            assert_eq!(clauses.len(), 2);
            match &clauses[0] {
                Value::Doc(c) => assert!(c.contains_key("name")),
                other => panic!("expected a clause document, got {:?}", other),
            }
            match &clauses[1] {
                Value::Doc(c) => assert!(c.contains_key("block")),
                other => panic!("expected a clause document, got {:?}", other),
            }
        },
        other => panic!("expected a conjunction array, got {:?}", other),
    }
}

#[test]
fn create_plan_drops_a_non_identifier_id_and_stamps_times() {
    let m = timestamped_model();
    let mut record = Doc::new();
    record.insert("_id", Value::Null);
    record.insert("age", Value::Int32(30));
    let stored = m.create_plan(record, 123);
    assert!(!stored.contains_key("_id"));
    assert_eq!(stored.get("updated_at"), Some(&Value::DateTime(123)));
    assert_eq!(stored.get("created_at"), Some(&Value::DateTime(123)));
}

#[test]
fn create_plan_keeps_a_real_identifier_and_existing_times() {
    let m = timestamped_model();
    let mut record = Doc::new();
    record.insert("_id", Value::ObjectId(vec![1u8; 12]));
    record.insert("created_at", Value::DateTime(1));
    let stored = m.create_plan(record, 999);
    assert_eq!(stored.get("_id"), Some(&Value::ObjectId(vec![1u8; 12])));
    assert_eq!(stored.get("created_at"), Some(&Value::DateTime(1)));
    assert_eq!(stored.get("updated_at"), Some(&Value::DateTime(999)));
}

#[test]
fn create_doc_plan_only_stamps() {
    let m = timestamped_model();
    let mut raw = Doc::new();
    raw.insert("password", Value::Str("kept".to_string()));
    let stored = m.create_doc_plan(raw, 55);
    // the raw-document path applies no renaming
    assert_eq!(stored.get("password"), Some(&Value::Str("kept".to_string())));
    assert_eq!(stored.get("updated_at"), Some(&Value::DateTime(55)));
}

#[test]
fn multi_document_summaries_render_counts() {
    let d = update_many_result(0);
    assert_eq!(d.get("modified_count"), Some(&Value::Str("0".to_string())));
    let d = update_many_result(12345);
    assert_eq!(d.get("modified_count"), Some(&Value::Str("12345".to_string())));
    let d = delete_many_result(42);
    assert_eq!(d.get("deleted_count"), Some(&Value::Str("42".to_string())));
}

#[test]
fn builder_state_accumulates_and_resets() {
    let m = timestamped_model().where_doc(name_filter()).skip(1).limit(2).all().upsert();
    assert_eq!(m.query_builder.wheres.len(), 1);
    assert_eq!(m.query_builder.skip, 1);
    assert_eq!(m.query_builder.limit, 2);
    assert!(m.query_builder.all);
    assert!(m.query_builder.upsert);
    let m = m.reset();
    assert_eq!(m.query_builder.wheres.len(), 0);
    assert_eq!(m.query_builder.skip, 0);
    assert_eq!(m.query_builder.limit, 0);
    assert!(!m.query_builder.all);
    assert!(!m.query_builder.upsert);
}

#[test]
fn collection_name_can_be_changed() {
    let m = timestamped_model();
    assert_eq!(m.collection_name(), "user");
    let m = m.set_collection("archive".to_string());
    assert_eq!(m.collection_name(), "archive");
}

#[test]
fn lazy_columns_are_plain_and_self_named() {
    let mut m = timestamped_model();
    m.add_columns(vec!["note".to_string()]);
    let attr = m.columns.get("note").expect("the lazy column is declared");
    assert!(!attr.is_index());
    assert!(!attr.hidden);
    assert_eq!(attr.name.as_deref(), Some("note"));
}

#[test]
fn terminal_plans_reset_the_builder() {
    let mut sort = Doc::new();
    sort.insert("age", Value::Int32(1));
    let mut m = timestamped_model()
        .where_doc(name_filter())
        .sort(sort)
        .skip(4)
        .limit(9)
        .all()
        .upsert()
        .visible(vec!["password".to_string()]);
    let _ = m.find_plan();
    assert_eq!(m.query_builder.wheres.len(), 0);
    assert_eq!(m.query_builder.skip, 0);
    assert_eq!(m.query_builder.limit, 0);
    assert!(!m.query_builder.all);
    assert!(!m.query_builder.upsert);
    assert!(m.query_builder.select.is_none());
    assert_eq!(m.query_builder.sort.len(), 0);
    assert!(m.query_builder.visible_fields.is_empty());
}

#[test]
fn failed_update_keeps_the_builder() {
    let mut m = timestamped_model().skip(3);
    let mut payload = Doc::new();
    payload.insert("age", Value::Int32(1));
    let r = m.update_plan(payload, 1);
    assert_eq!(r.err(), Some(UsageError::FilterRequired));
    assert_eq!(m.query_builder.skip, 3);
}

#[test]
fn raw_create_drops_a_non_identifier_id() {
    let m = timestamped_model();
    let mut raw = Doc::new();
    raw.insert("_id", Value::Str("not-an-identifier".to_string()));
    raw.insert("age", Value::Int32(7));
    let stored = m.create_doc_plan(raw, 44);
    assert!(!stored.contains_key("_id"));
    assert_eq!(stored.get("age"), Some(&Value::Int32(7)));
    assert_eq!(stored.get("updated_at"), Some(&Value::DateTime(44)));
}

#[test]
fn raw_create_keeps_a_real_identifier() {
    let m = Model::new("user".to_string(), user_schema(), false);
    let mut raw = Doc::new();
    raw.insert("_id", Value::ObjectId(vec![7u8; 12]));
    let stored = m.create_doc_plan(raw, 44);
    assert_eq!(stored.get("_id"), Some(&Value::ObjectId(vec![7u8; 12])));
    assert!(!stored.contains_key("updated_at"));
}
