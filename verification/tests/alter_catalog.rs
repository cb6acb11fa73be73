use rusql::alter_catalog::{
    catalog_drop_column, catalog_has_column, catalog_push_column, catalog_rename_column,
    catalog_rename_table, catalog_replace_column,
};
use rusql::catalog::{ColumnDef, Session, TableMeta};
use rusql::results::{ExecError, StorageError};

fn session() -> Session {
    let mut s = Session::new(1, "root");
    s.catalog.create_table(TableMeta {
        name: "t".into(),
        schema: "rusql".into(),
        columns: vec![ColumnDef::new("id", "INT"), ColumnDef::new("name", "TEXT")],
        auto_increment_next: None,
        ..Default::default()
    });
    s
}

fn names(s: &Session, key: &str) -> Vec<String> {
    s.catalog.get_table(key).unwrap().columns.iter().map(|c| c.name.clone()).collect()
}

#[test]
fn alter_add_drop_rename_replace_columns() {
    let mut s = session();
    assert!(catalog_has_column(&s, "t", "NAME"));
    assert!(!catalog_has_column(&s, "t", "age"));
    assert!(!catalog_has_column(&s, "nope", "id"));
    catalog_push_column(&mut s, "t", ColumnDef::new("age", "INT")).unwrap();
    assert_eq!(names(&s, "t"), vec!["id", "name", "age"]);
    catalog_drop_column(&mut s, "t", "NAME", false).unwrap();
    assert_eq!(names(&s, "t"), vec!["id", "age"]);
    catalog_drop_column(&mut s, "t", "gone", true).unwrap();
    match catalog_drop_column(&mut s, "t", "gone", false) {
        Err(ExecError::Message(m)) => assert_eq!(m, "column 'gone' not found"),
        other => panic!("unexpected {other:?}"),
    }
    catalog_rename_column(&mut s, "t", "AGE", "years").unwrap();
    assert_eq!(names(&s, "t"), vec!["id", "years"]);
    let mut wide = ColumnDef::new("YEARS", "BIGINT");
    wide.nullable = false;
    catalog_replace_column(&mut s, "t", wide).unwrap();
    let c = &s.catalog.get_table("t").unwrap().columns[1];
    assert_eq!((c.name.as_str(), c.data_type.as_str(), c.nullable), ("YEARS", "BIGINT", false));
    match catalog_push_column(&mut s, "missing", ColumnDef::new("x", "INT")) {
        Err(ExecError::Storage(StorageError::TableNotFound(n))) => assert_eq!(n, "missing"),
        other => panic!("unexpected {other:?}"),
    }
}

#[test]
fn alter_rename_table_moves_key() {
    let mut s = session();
    catalog_rename_table(&mut s, "t", "t2").unwrap();
    assert!(s.catalog.get_table("t").is_none());
    assert_eq!(s.catalog.get_table("t2").unwrap().name, "t2");
    assert_eq!(names(&s, "t2"), vec!["id", "name"]);
    match catalog_rename_table(&mut s, "t", "t3") {
        Err(ExecError::Storage(StorageError::TableNotFound(n))) => assert_eq!(n, "t"),
        other => panic!("unexpected {other:?}"),
    }
}
