use mongodb_ro::{reconcile, ColumnAttr, DeclaredIndex, IndexOpts, LiveIndex, Schema};

fn attr(
    asc: bool,
    desc: bool,
    unique: bool,
    sphere2d: bool,
    text: Option<&str>,
) -> ColumnAttr {
    ColumnAttr {
        asc,
        desc,
        unique,
        sphere2d,
        text: text.map(|s| s.to_string()),
        hidden: false,
        name: None,
    }
}

/// Four indexed columns of every kind, and one plain column.
fn indexed_schema() -> Schema {
    let mut s = Schema::new();
    s.insert("name", attr(false, false, false, false, None));
    s.insert("phone", attr(true, false, true, false, None));
    s.insert("age", attr(false, true, false, false, None));
    s.insert("bio", attr(false, false, false, false, Some("english")));
    s.insert("loc", attr(false, false, false, true, None));
    s
}

fn id_index() -> LiveIndex {
    LiveIndex {
        keys: vec!["_id".to_string()],
        options: Some(IndexOpts { name: Some("_id_".to_string()), has_language: false }),
    }
}

fn live_for(field: &str) -> LiveIndex {
    LiveIndex {
        keys: vec![field.to_string()],
        options: Some(IndexOpts {
            name: Some(format!("{}_1", field)),
            has_language: false,
        }),
    }
}

#[test]
fn fresh_collection_creates_every_declared_index() {
    let schema = indexed_schema();
    let plan = reconcile(&schema, &vec![id_index()]);
    assert!(plan.drops.is_empty());
    assert_eq!(
        plan.creates,
        vec![
            DeclaredIndex::Scalar { field: "phone".to_string(), unique: true, descending: false },
            DeclaredIndex::Scalar { field: "age".to_string(), unique: false, descending: true },
            DeclaredIndex::Text {
                field: "bio".to_string(),
                unique: false,
                language: "english".to_string(),
            },
            DeclaredIndex::Sphere2d { field: "loc".to_string(), unique: false },
        ]
    );
}

#[test]
fn second_pass_after_convergence_is_a_noop() {
    // run once against an empty collection, pretend the planned indexes were
    // created, and run again: nothing further to create or drop
    let schema = indexed_schema();
    let plan = reconcile(&schema, &vec![id_index()]);
    let mut live: Vec<LiveIndex> = vec![id_index()];
    for c in &plan.creates {
        let field = match c {
            DeclaredIndex::Text { field, .. } => field.clone(),
            DeclaredIndex::Sphere2d { field, .. } => field.clone(),
            DeclaredIndex::Scalar { field, .. } => field.clone(),
        };
        live.push(live_for(&field));
    }
    let plan2 = reconcile(&schema, &live);
    assert!(plan2.creates.is_empty(), "second pass plans creations: {:?}", plan2.creates);
    assert!(plan2.drops.is_empty(), "second pass plans drops: {:?}", plan2.drops);
}

#[test]
fn orphan_index_is_dropped_by_its_declared_name() {
    let schema = indexed_schema();
    let mut live = vec![id_index(), live_for("old_field")];
    for f in ["phone", "age", "bio", "loc"] {
        live.push(live_for(f));
    }
    let plan = reconcile(&schema, &live);
    assert!(plan.creates.is_empty());
    assert_eq!(plan.drops, vec![Some("old_field_1".to_string())]);
}

#[test]
fn orphan_without_options_is_left_alone() {
    let schema = indexed_schema();
    let live = vec![LiveIndex { keys: vec!["stray".to_string()], options: None }];
    let plan = reconcile(&schema, &live);
    assert!(plan.drops.is_empty());
    assert_eq!(plan.creates.len(), 4);
}

#[test]
fn language_index_named_after_a_column_satisfies_it() {
    // a text index whose declared name equals a wanted column counts as that
    // column's index instead of being dropped
    let schema = indexed_schema();
    let live = vec![LiveIndex {
        keys: vec!["_fts".to_string()],
        options: Some(IndexOpts { name: Some("bio".to_string()), has_language: true }),
    }];
    let plan = reconcile(&schema, &live);
    assert!(plan.drops.is_empty());
    assert_eq!(plan.creates.len(), 3);
    for c in &plan.creates {
        if let DeclaredIndex::Text { field, .. } = c {
            panic!("the text column was already satisfied, yet {:?} is planned", field);
        }
    }
}

#[test]
fn language_index_with_a_foreign_name_is_dropped() {
    let schema = indexed_schema();
    let live = vec![LiveIndex {
        keys: vec!["_fts".to_string()],
        options: Some(IndexOpts { name: Some("other".to_string()), has_language: true }),
    }];
    let plan = reconcile(&schema, &live);
    assert_eq!(plan.drops, vec![Some("other".to_string())]);
    assert_eq!(plan.creates.len(), 4);
}

#[test]
fn language_index_without_a_name_is_scheduled_nameless() {
    let schema = indexed_schema();
    let live = vec![LiveIndex {
        keys: vec!["_fts".to_string()],
        options: Some(IndexOpts { name: None, has_language: true }),
    }];
    let plan = reconcile(&schema, &live);
    assert_eq!(plan.drops, vec![None]);
}

#[test]
fn second_pass_with_a_name_satisfied_text_index_is_a_noop() {
    // a converged collection can hold the text index under its own key with
    // the column's name and a language marker; it still satisfies the column
    let schema = indexed_schema();
    let mut live = vec![
        id_index(),
        live_for("phone"),
        live_for("age"),
        LiveIndex {
            keys: vec!["_fts".to_string()],
            options: Some(IndexOpts { name: Some("bio".to_string()), has_language: true }),
        },
        live_for("loc"),
    ];
    let plan = reconcile(&schema, &live);
    assert!(plan.creates.is_empty(), "pass plans creations: {:?}", plan.creates);
    assert!(plan.drops.is_empty(), "pass plans drops: {:?}", plan.drops);
    live.rotate_left(2);
    let plan = reconcile(&schema, &live);
    assert!(plan.creates.is_empty());
    assert!(plan.drops.is_empty());
}
