use mongodb_ro::ColumnAttr;

fn plain() -> ColumnAttr {
    ColumnAttr {
        asc: false,
        desc: false,
        unique: false,
        sphere2d: false,
        text: None,
        hidden: false,
        name: None,
    }
}

#[test]
fn plain_column_is_not_an_index() {
    assert!(!plain().is_index());
}

#[test]
fn each_index_flag_alone_makes_an_index() {
    let mut a = plain();
    a.unique = true;
    assert!(a.is_index());

    let mut a = plain();
    a.asc = true;
    assert!(a.is_index());

    let mut a = plain();
    a.desc = true;
    assert!(a.is_index());

    let mut a = plain();
    a.sphere2d = true;
    assert!(a.is_index());

    let mut a = plain();
    a.text = Some("english".to_string());
    assert!(a.is_index());
}

#[test]
fn hidden_and_wire_name_do_not_make_an_index() {
    let mut a = plain();
    a.hidden = true;
    a.name = Some("pswd".to_string());
    assert!(!a.is_index());
}
