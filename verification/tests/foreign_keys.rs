use rusql::catalog::{ColumnDef, ForeignKeyMeta, Session, TableMeta};
use rusql::foreign_keys::{
    apply_assignments, check_delete, check_insert, check_update, foreign_key_from_constraint,
    matching_rows, ref_action_to_string, resolve_fk_reference, ColumnAssignment, DeleteFilter,
    TableConstraint,
};
use rusql::messages::MessageCatalog;
use rusql::name_map::NameMap;
use rusql::results::{ExecError, StorageError};

fn catalog() -> MessageCatalog {
    let mut cat = MessageCatalog::new();
    cat.insert(
        "sql.fk_child_violation",
        "Cannot add or update a child row: a foreign key constraint fails (`%{schema}`.`%{table}`, CONSTRAINT `%{constraint}` FOREIGN KEY (`%{columns}`) REFERENCES `%{ref_table}` (`%{ref_columns}`))",
    );
    cat.insert(
        "sql.fk_parent_violation",
        "Cannot delete or update a parent row: a foreign key constraint fails (`%{schema}`.`%{table}`, CONSTRAINT `%{constraint}` FOREIGN KEY (`%{columns}`) REFERENCES `%{ref_table}` (`%{ref_columns}`))",
    );
    cat
}

fn row(cells: &[&str]) -> Vec<String> {
    cells.iter().map(|s| s.to_string()).collect()
}

fn parent_child_catalog() -> (Session, NameMap<Vec<Vec<String>>>) {
    let mut session = Session::new(1, "root");
    let parent = TableMeta {
        name: "parent".into(),
        schema: "rusql".into(),
        columns: vec![ColumnDef::new("id", "INT")],
        auto_increment_next: None,
        foreign_keys: vec![],
    };
    let child = TableMeta {
        name: "child".into(),
        schema: "rusql".into(),
        columns: vec![ColumnDef::new("id", "INT"), ColumnDef::new("parent_id", "INT")],
        auto_increment_next: None,
        foreign_keys: vec![ForeignKeyMeta {
            name: Some("fk_child_parent".into()),
            columns: vec!["parent_id".into()],
            referenced_schema: "rusql".into(),
            referenced_table: "parent".into(),
            referenced_columns: vec!["id".into()],
            on_delete: "RESTRICT".into(),
            on_update: "RESTRICT".into(),
        }],
    };
    session.catalog.create_table(parent);
    session.catalog.create_table(child);
    let mut stored = NameMap::new();
    stored.insert("parent".to_string(), vec![row(&["1"])]);
    stored.insert("child".to_string(), vec![]);
    (session, stored)
}

#[test]
fn insert_valid_and_invalid_fk() {
    let cat = catalog();
    let (session, stored) = parent_child_catalog();
    let child_meta = session.catalog.get_table("child").unwrap().clone();
    check_insert(&cat, &stored, &session, &child_meta, &row(&["1", "1"])).unwrap();
    assert!(check_insert(&cat, &stored, &session, &child_meta, &row(&["2", "99"])).is_err());
}

#[test]
fn delete_parent_with_child_fails() {
    let cat = catalog();
    let (session, mut stored) = parent_child_catalog();
    stored.insert("child".to_string(), vec![row(&["1", "1"])]);
    let parent_meta = session.catalog.get_table("parent").unwrap().clone();
    let rows = matching_rows(&stored, &parent_meta, None).unwrap();
    assert!(check_delete(&cat, &stored, &session, &parent_meta, &rows).is_err());
}

#[test]
fn violations_name_the_constraint() {
    let cat = catalog();
    let (session, mut stored) = parent_child_catalog();
    let child_meta = session.catalog.get_table("child").unwrap().clone();
    match check_insert(&cat, &stored, &session, &child_meta, &row(&["2", "99"])) {
        Err(ExecError::Mysql { code, message }) => {
            assert_eq!(code, 1452);
            assert_eq!(
                message,
                "Cannot add or update a child row: a foreign key constraint fails (`rusql`.`child`, CONSTRAINT `fk_child_parent` FOREIGN KEY (`parent_id`) REFERENCES `parent` (`id`))"
            );
        }
        other => panic!("expected errno 1452, got {other:?}"),
    }
    // an all-NULL key references nothing
    check_insert(&cat, &stored, &session, &child_meta, &row(&["3", ""])).unwrap();
    // a short row reads as NULL too
    check_insert(&cat, &stored, &session, &child_meta, &row(&["3"])).unwrap();
    stored.insert("child".to_string(), vec![row(&["1", "1"])]);
    let parent_meta = session.catalog.get_table("parent").unwrap().clone();
    match check_delete(&cat, &stored, &session, &parent_meta, &vec![row(&["1"])]) {
        Err(ExecError::Mysql { code, message }) => {
            assert_eq!(code, 1451);
            assert!(message.contains("CONSTRAINT `fk_child_parent`"));
            assert!(message.contains("REFERENCES `parent` (`id`)"));
        }
        other => panic!("expected errno 1451, got {other:?}"),
    }
    // deleting an unreferenced parent row is fine
    check_delete(&cat, &stored, &session, &parent_meta, &vec![row(&["2"])]).unwrap();
}

#[test]
fn update_checks_both_sides() {
    let cat = catalog();
    let (session, mut stored) = parent_child_catalog();
    stored.insert("parent".to_string(), vec![row(&["1"]), row(&["2"])]);
    stored.insert("child".to_string(), vec![row(&["10", "1"])]);
    let parent_meta = session.catalog.get_table("parent").unwrap().clone();
    let child_meta = session.catalog.get_table("child").unwrap().clone();
    // re-pointing a child at another existing parent is fine
    check_update(&cat, &stored, &session, &child_meta, &row(&["10", "1"]), &row(&["10", "2"])).unwrap();
    // at a missing parent it is not
    assert!(matches!(
        check_update(&cat, &stored, &session, &child_meta, &row(&["10", "1"]), &row(&["10", "7"])),
        Err(ExecError::Mysql { code: 1452, .. })
    ));
    // changing a referenced parent key is refused; keeping it is fine
    assert!(matches!(
        check_update(&cat, &stored, &session, &parent_meta, &row(&["1"]), &row(&["5"])),
        Err(ExecError::Mysql { code: 1451, .. })
    ));
    check_update(&cat, &stored, &session, &parent_meta, &row(&["1"]), &row(&["1"])).unwrap();
    check_update(&cat, &stored, &session, &parent_meta, &row(&["2"]), &row(&["5"])).unwrap();
}

#[test]
fn missing_tables_and_columns() {
    let cat = catalog();
    let (session, mut stored) = parent_child_catalog();
    let child_meta = session.catalog.get_table("child").unwrap().clone();
    stored.remove("parent");
    match check_insert(&cat, &stored, &session, &child_meta, &row(&["1", "1"])) {
        Err(ExecError::Storage(StorageError::TableNotFound(k))) => assert_eq!(k, "parent"),
        other => panic!("expected a storage error, got {other:?}"),
    }
    let mut orphan = child_meta.clone();
    orphan.foreign_keys[0].referenced_table = "gone".into();
    match check_insert(&cat, &stored, &session, &orphan, &row(&["1", "1"])) {
        Err(ExecError::Message(m)) => assert_eq!(m, "referenced table 'gone' missing"),
        other => panic!("expected a message, got {other:?}"),
    }
    let mut bad = child_meta.clone();
    bad.foreign_keys[0].columns = vec!["nope".into()];
    match check_insert(&cat, &stored, &session, &bad, &row(&["1", "1"])) {
        Err(ExecError::Message(m)) => assert_eq!(m, "unknown column 'nope'"),
        other => panic!("expected a message, got {other:?}"),
    }
}

#[test]
fn matching_rows_and_assignments() {
    let (session, mut stored) = parent_child_catalog();
    stored.insert("child".to_string(), vec![row(&["1", "1"]), row(&["2", "9"]), row(&["3", "1"])]);
    let child_meta = session.catalog.get_table("child").unwrap().clone();
    let f = DeleteFilter { column: "PARENT_ID".into(), value: "1".into() };
    assert_eq!(
        matching_rows(&stored, &child_meta, Some(&f)).unwrap(),
        vec![row(&["1", "1"]), row(&["3", "1"])]
    );
    let bad = DeleteFilter { column: "zz".into(), value: "1".into() };
    assert!(matches!(matching_rows(&stored, &child_meta, Some(&bad)), Err(ExecError::Message(_))));
    let a = vec![ColumnAssignment { column: "parent_id".into(), value: "7".into() }];
    assert_eq!(apply_assignments(&child_meta, &row(&["1", "1"]), &a).unwrap(), row(&["1", "7"]));
    assert_eq!(apply_assignments(&child_meta, &row(&["1"]), &a).unwrap(), row(&["1"]));
    let a = vec![ColumnAssignment { column: "x".into(), value: "7".into() }];
    match apply_assignments(&child_meta, &row(&["1", "1"]), &a) {
        Err(ExecError::Message(m)) => assert_eq!(m, "unknown column 'x'"),
        other => panic!("expected a message, got {other:?}"),
    }
}

#[test]
fn constraints_become_foreign_keys() {
    let strings = |v: &[&str]| v.iter().map(|s| s.to_string()).collect::<Vec<_>>();
    let c = TableConstraint::ForeignKey {
        name: None,
        columns: strings(&["pid"]),
        foreign_table: strings(&["shop", "parent"]),
        referred_columns: strings(&["id"]),
        on_delete: None,
        on_update: Some("NO ACTION".into()),
    };
    let fk = foreign_key_from_constraint(&c, "rusql").unwrap().unwrap();
    assert_eq!(fk.referenced_schema, "shop");
    assert_eq!(fk.referenced_table, "parent");
    assert_eq!(fk.on_delete, "RESTRICT");
    assert_eq!(fk.on_update, "NO ACTION");
    assert!(foreign_key_from_constraint(&TableConstraint::Other, "rusql").unwrap().is_none());
    let c = TableConstraint::ForeignKey {
        name: Some("f".into()),
        columns: strings(&["a", "b"]),
        foreign_table: strings(&["p"]),
        referred_columns: strings(&["id"]),
        on_delete: None,
        on_update: None,
    };
    match foreign_key_from_constraint(&c, "rusql") {
        Err(ExecError::Message(m)) => assert_eq!(m, "FOREIGN KEY column count must match referenced column count"),
        other => panic!("expected an error, got {other:?}"),
    }
    let c = TableConstraint::ForeignKey {
        name: None,
        columns: strings(&["a"]),
        foreign_table: strings(&["p"]),
        referred_columns: strings(&["id"]),
        on_delete: Some("CASCADE".into()),
        on_update: None,
    };
    match foreign_key_from_constraint(&c, "rusql") {
        Err(ExecError::Message(m)) => assert_eq!(m, "unsupported FOREIGN KEY ON DELETE CASCADE"),
        other => panic!("expected an error, got {other:?}"),
    }
    assert_eq!(
        resolve_fk_reference("rusql", &strings(&["t"])).unwrap(),
        ("rusql".to_string(), "t".to_string(), "t".to_string())
    );
    assert_eq!(
        resolve_fk_reference("rusql", &strings(&["s", "t"])).unwrap(),
        ("s".to_string(), "t".to_string(), "s.t".to_string())
    );
    match resolve_fk_reference("rusql", &strings(&["a", "b", "c"])) {
        Err(ExecError::Message(m)) => assert_eq!(m, "unsupported foreign key reference: a.b.c"),
        other => panic!("expected an error, got {other:?}"),
    }
    assert_eq!(ref_action_to_string(None), "RESTRICT");
    assert_eq!(ref_action_to_string(Some("SET NULL")), "SET NULL");
}
