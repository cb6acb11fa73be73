use rusql::catalog::{ColumnDef, EventMeta, ForeignKeyMeta, IndexMeta, Session, TableMeta, ViewMeta};
use rusql::show_commands::{scan_information_schema_statistics, show_index_for_table};
use rusql::executor::is_information_schema_table;
use rusql::info_schema::{
    describe_table, describe_table_by_name, scan_information_schema_events,
    scan_information_schema_key_column_usage, scan_information_schema_routines,
    scan_information_schema_schemata, scan_information_schema_triggers,
    scan_information_schema_views, show_collation, show_create_table, show_create_view,
    show_create_view_by_name, show_grants_result, show_processlist, mysql_user_stub_rows,
    DEFAULT_CHARSET, DEFAULT_COLLATION, DEFAULT_SCHEMA,
};
use rusql::privileges::{Account, GrantTarget, Privilege, PrivilegeSet, PrivilegeStore};
use rusql::programs::{FunctionMeta, ProcedureMeta, TriggerEvent, TriggerMeta, TriggerTiming};
use rusql::program_exec::{apply_before_insert_triggers, event_is_due, quote_sql_string, replace_row_ref, substitute_old_new};
use rusql::results::{ExecError, QueryResult, StorageError};

fn pk_col(name: &str) -> ColumnDef {
    ColumnDef {
        name: name.into(),
        data_type: "INT".into(),
        nullable: false,
        primary_key: true,
        auto_increment: false,
        collation: None,
    }
}

fn rows_of(r: QueryResult) -> (Vec<String>, Vec<Vec<String>>) {
    match r {
        QueryResult::Rows { columns, rows } => (columns, rows),
        other => panic!("expected rows, got {other:?}"),
    }
}

#[test]
fn describe_primary_key_metadata() {
    let meta = TableMeta {
        name: "pk_t".into(),
        schema: "rusql".into(),
        columns: vec![
            pk_col("id"),
            ColumnDef {
                name: "label".into(),
                data_type: "VARCHAR(16)".into(),
                nullable: false,
                primary_key: false,
                auto_increment: false,
                collation: None,
            },
        ],
        auto_increment_next: None,
        ..Default::default()
    };
    match describe_table(&meta) {
        QueryResult::Rows { rows, .. } => {
            assert_eq!(rows[0][2], "NO");
            assert_eq!(rows[0][3], "PRI");
            assert_eq!(rows[1][2], "NO");
            assert_eq!(rows[1][3], "");
        }
        _ => panic!("expected rows"),
    }
}

#[test]
fn show_create_shape() {
    let meta = TableMeta {
        name: "t".into(),
        schema: "rusql".into(),
        columns: vec![ColumnDef::new("id", "int"), ColumnDef::new("name", "varchar(32)")],
        auto_increment_next: None,
        ..Default::default()
    };
    match show_create_table(&meta) {
        QueryResult::Rows { columns, rows } => {
            assert_eq!(columns, vec!["Table".to_string(), "Create Table".to_string()]);
            assert_eq!(rows[0][0], "t");
            assert!(rows[0][1].contains("CREATE TABLE `t`"));
            assert!(rows[0][1].contains("`id` INT"));
            assert!(rows[0][1].contains("`name` VARCHAR(32)"));
        }
        _ => panic!("expected rows"),
    }
}

#[test]
fn show_create_view_shape() {
    let meta = ViewMeta { name: "v_ids".into(), sql: "SELECT id FROM vt".into() };
    match show_create_view(&meta) {
        QueryResult::Rows { columns, rows } => {
            assert_eq!(
                columns,
                vec![
                    "View".to_string(),
                    "Create View".to_string(),
                    "character_set_client".to_string(),
                    "collation_connection".to_string(),
                ]
            );
            assert_eq!(rows[0][0], "v_ids");
            assert!(rows[0][1].contains("CREATE VIEW `v_ids` AS"));
            assert!(rows[0][1].contains("SELECT id FROM vt"));
            assert_eq!(rows[0][2], DEFAULT_CHARSET);
            assert_eq!(rows[0][3], DEFAULT_COLLATION);
        }
        other => panic!("expected rows, got {other:?}"),
    }
}

#[test]
fn describe_shape() {
    let meta = TableMeta {
        name: "t".into(),
        schema: "rusql".into(),
        columns: vec![ColumnDef::new("id", "INT")],
        auto_increment_next: None,
        ..Default::default()
    };
    match describe_table(&meta) {
        QueryResult::Rows { columns, rows } => {
            assert_eq!(columns[0], "Field");
            assert_eq!(rows[0][0], "id");
            assert_eq!(rows[0][1], "int");
        }
        _ => panic!("expected rows"),
    }
}

fn sample_event(name: &str, comment: Option<&str>) -> EventMeta {
    EventMeta {
        schema: DEFAULT_SCHEMA.into(),
        name: name.into(),
        schedule_type: "RECURRING".into(),
        execute_at: None,
        interval_value: Some("1".into()),
        interval_field: Some("HOUR".into()),
        status: "ENABLED".into(),
        body: "SELECT 1".into(),
        last_executed: None,
        starts: None,
        ends: None,
        definer: None,
        on_completion: None,
        comment: comment.map(str::to_string),
    }
}

#[test]
fn information_schema_events_empty_and_catalog() {
    assert_eq!(is_information_schema_table("information_schema.EVENTS"), Some("events"));
    assert_eq!(is_information_schema_table("information_schema.events"), Some("events"));

    let session = Session::new(1, "root");
    match scan_information_schema_events(&session) {
        QueryResult::Rows { columns, rows } => {
            let expected: Vec<String> = [
                "EVENT_SCHEMA",
                "EVENT_NAME",
                "DEFINER",
                "EVENT_TYPE",
                "EXECUTE_AT",
                "INTERVAL_VALUE",
                "INTERVAL_FIELD",
                "STARTS",
                "ENDS",
                "STATUS",
                "ON_COMPLETION",
                "LAST_EXECUTED",
                "EVENT_COMMENT",
            ]
            .iter()
            .map(|s| (*s).to_string())
            .collect();
            assert_eq!(columns, expected);
            assert!(rows.is_empty());
        }
        other => panic!("empty EVENTS must return rows, got {other:?}"),
    }

    let mut session = Session::new(1, "root");
    session.catalog.create_event(sample_event("e", Some("hi")));
    match scan_information_schema_events(&session) {
        QueryResult::Rows { columns, rows } => {
            let name_i = columns.iter().position(|c| c == "EVENT_NAME").unwrap();
            let comment_i = columns.iter().position(|c| c == "EVENT_COMMENT").unwrap();
            let last_i = columns.iter().position(|c| c == "LAST_EXECUTED").unwrap();
            let definer_i = columns.iter().position(|c| c == "DEFINER").unwrap();
            let on_comp_i = columns.iter().position(|c| c == "ON_COMPLETION").unwrap();
            assert_eq!(rows.len(), 1);
            assert_eq!(rows[0][name_i], "e");
            assert_eq!(rows[0][comment_i], "hi");
            assert_eq!(rows[0][last_i], "");
            assert_eq!(rows[0][definer_i], "root@%");
            assert_eq!(rows[0][on_comp_i], "NOT PRESERVE");
        }
        other => panic!("expected EVENTS catalog row, got {other:?}"),
    }
}

#[test]
fn events_sorted_by_schema_then_name() {
    let mut session = Session::new(1, "root");
    session.catalog.create_event(sample_event("zeta", None));
    session.catalog.create_event(sample_event("alpha", None));
    let mut other = sample_event("beta", None);
    other.schema = "app".into();
    other.definer = Some("bob@%".into());
    other.on_completion = Some("PRESERVE".into());
    session.catalog.create_event(other);
    let (_, rows) = rows_of(scan_information_schema_events(&session));
    let names: Vec<(&str, &str)> = rows.iter().map(|r| (r[0].as_str(), r[1].as_str())).collect();
    assert_eq!(names, vec![("app", "beta"), ("rusql", "alpha"), ("rusql", "zeta")]);
    assert_eq!(rows[0][2], "bob@%");
    assert_eq!(rows[0][10], "PRESERVE");
    assert_eq!(rows[1][5], "1");
    assert_eq!(rows[1][6], "HOUR");
}

#[test]
fn create_table_text_in_full() {
    let mut id = ColumnDef::new("id", "int");
    id.nullable = false;
    id.auto_increment = true;
    id.primary_key = true;
    let meta = TableMeta {
        name: "t".into(),
        columns: vec![id, ColumnDef::new("name", "varchar(32)")],
        auto_increment_next: Some(42),
        ..Default::default()
    };
    let (_, rows) = rows_of(show_create_table(&meta));
    assert_eq!(
        rows[0][1],
        "CREATE TABLE `t` (`id` INT NOT NULL AUTO_INCREMENT PRIMARY KEY, `name` VARCHAR(32)) AUTO_INCREMENT=42"
    );
}

#[test]
fn view_names_lose_their_schema_and_quote_backticks() {
    let meta = ViewMeta { name: "db.we`ird".into(), sql: "SELECT 1".into() };
    let (_, rows) = rows_of(show_create_view(&meta));
    assert_eq!(rows[0][0], "we`ird");
    assert_eq!(rows[0][1], "CREATE VIEW `we``ird` AS SELECT 1");
}

#[test]
fn lookups_by_name_report_missing_tables() {
    let mut session = Session::new(1, "root");
    assert_eq!(
        describe_table_by_name(&session, "rusql.nope"),
        Err(ExecError::Storage(StorageError::TableNotFound("rusql.nope".into())))
    );
    assert_eq!(
        show_create_view_by_name(&session, "v"),
        Err(ExecError::Storage(StorageError::TableNotFound("v".into())))
    );
    session.catalog.create_table(TableMeta {
        name: "t".into(),
        columns: vec![ColumnDef::new("id", "INT")],
        ..Default::default()
    });
    let (_, rows) = rows_of(describe_table_by_name(&session, "t").unwrap());
    assert_eq!(rows.len(), 1);
}

#[test]
fn schemata_and_collations() {
    let (cols, rows) = rows_of(scan_information_schema_schemata(&["a".to_string(), "b".to_string()]));
    assert_eq!(cols[0], "SCHEMA_NAME");
    assert_eq!(rows, vec![
        vec!["a".to_string(), "utf8mb4".to_string(), "utf8mb4_unicode_ci".to_string()],
        vec!["b".to_string(), "utf8mb4".to_string(), "utf8mb4_unicode_ci".to_string()],
    ]);
    let (cols, rows) = rows_of(show_collation(None));
    assert_eq!(cols.len(), 7);
    assert_eq!(rows.len(), 2);
    assert_eq!(rows[0][0], "utf8mb4_0900_ai_ci");
    assert_eq!(rows[0][2], "1");
    assert_eq!(rows[0][3], "");
    assert_eq!(rows[1][0], "utf8mb4_unicode_ci");
    assert_eq!(rows[1][2], "2");
    assert_eq!(rows[1][3], "Yes");
    let (_, rows) = rows_of(show_collation(Some("UTF8MB4_UNICODE_CI")));
    assert_eq!(rows.len(), 1);
    assert_eq!(rows[0][0], "utf8mb4_unicode_ci");
    let (_, rows) = rows_of(show_collation(Some("latin1_swedish_ci")));
    assert!(rows.is_empty());
}

#[test]
fn views_routines_and_triggers() {
    let mut session = Session::new(1, "root");
    session.catalog.create_view(ViewMeta { name: "v2".into(), sql: "SELECT 2".into() });
    session.catalog.create_view(ViewMeta { name: "v1".into(), sql: "SELECT 1".into() });
    let (_, rows) = rows_of(scan_information_schema_views(&session));
    assert_eq!(rows, vec![
        vec!["rusql".to_string(), "v1".to_string(), "SELECT 1".to_string()],
        vec!["rusql".to_string(), "v2".to_string(), "SELECT 2".to_string()],
    ]);

    session.catalog.create_procedure(ProcedureMeta {
        schema: "rusql".into(),
        name: "p".into(),
        body: vec!["SELECT 1".into()],
    });
    session.catalog.create_function(FunctionMeta {
        schema: "rusql".into(),
        name: "f".into(),
        return_type: "INT".into(),
        return_expr: "1".into(),
    });
    let (_, rows) = rows_of(scan_information_schema_routines(&session));
    assert_eq!(rows, vec![
        vec!["rusql".to_string(), "p".to_string(), "PROCEDURE".to_string(), "NULL".to_string()],
        vec!["rusql".to_string(), "f".to_string(), "FUNCTION".to_string(), "INT".to_string()],
    ]);

    session.catalog.create_trigger(TriggerMeta {
        schema: "rusql".into(),
        table: "t".into(),
        name: "trg".into(),
        timing: TriggerTiming::Before,
        event: TriggerEvent::Update,
        body: vec!["SET @a = 1".into(), "SET @b = 2".into()],
    });
    let (_, rows) = rows_of(scan_information_schema_triggers(&session));
    assert_eq!(rows, vec![vec![
        "rusql".to_string(),
        "trg".to_string(),
        "UPDATE".to_string(),
        "t".to_string(),
        "BEFORE".to_string(),
        "SET @a = 1; SET @b = 2".to_string(),
    ]]);
}

#[test]
fn key_column_usage_rows_sorted() {
    let mut session = Session::new(1, "root");
    let fk = |name: Option<&str>, cols: Vec<&str>, refs: Vec<&str>| ForeignKeyMeta {
        name: name.map(str::to_string),
        columns: cols.into_iter().map(str::to_string).collect(),
        referenced_schema: "rusql".into(),
        referenced_table: "parent".into(),
        referenced_columns: refs.into_iter().map(str::to_string).collect(),
        on_delete: "RESTRICT".into(),
        on_update: "RESTRICT".into(),
    };
    session.catalog.create_table(TableMeta {
        name: "child".into(),
        foreign_keys: vec![fk(Some("zz"), vec!["b", "a"], vec!["y", "x"]), fk(None, vec!["c"], vec!["z", "w"])],
        ..Default::default()
    });
    let (cols, rows) = rows_of(scan_information_schema_key_column_usage(&session));
    assert_eq!(cols[3], "CONSTRAINT_NAME");
    let got: Vec<(&str, &str, &str)> =
        rows.iter().map(|r| (r[2].as_str(), r[3].as_str(), r[6].as_str())).collect();
    assert_eq!(got, vec![("c", "child_ibfk_2", "z"), ("a", "zz", "x"), ("b", "zz", "y")]);
}

#[test]
fn process_list_needs_a_registry() {
    let session = Session::new(1, "root");
    assert_eq!(
        show_processlist(&session, 0),
        Err(ExecError::Message("process list unavailable".into()))
    );
}

#[test]
fn grants_and_user_rows_as_results() {
    let mut store = PrivilegeStore::new();
    let account = Account::new("app", "%");
    store.grant(
        &account,
        GrantTarget { schema: "rusql".into(), table: None },
        PrivilegeSet::from_slice(&[Privilege::Select]),
    );
    let (cols, rows) = rows_of(show_grants_result(&store, "app", "%").unwrap());
    assert_eq!(cols, vec!["Grants for app@%".to_string()]);
    assert_eq!(rows.len(), 1);
    assert_eq!(rows[0].len(), 1);
    let (cols, rows) = rows_of(mysql_user_stub_rows(&store));
    assert_eq!(cols, vec!["User".to_string(), "Host".to_string(), "privileges".to_string()]);
    assert_eq!(rows.len(), 1);
    assert_eq!(rows[0][0], "app");
    assert_eq!(rows[0][1], "%");
}

#[test]
fn before_insert_trigger_sets_column() {
    let cat = rusql::messages::MessageCatalog::new();
    let mut session = Session::new(1, "root");
    let meta = TableMeta {
        name: "t".into(),
        schema: DEFAULT_SCHEMA.into(),
        columns: vec![ColumnDef::new("id", "INT"), ColumnDef::new("status", "VARCHAR(16)")],
        auto_increment_next: None,
        ..Default::default()
    };
    session.catalog.create_table(meta.clone());
    session.catalog.create_trigger(TriggerMeta {
        schema: DEFAULT_SCHEMA.into(),
        table: "t".into(),
        name: "tr".into(),
        timing: TriggerTiming::Before,
        event: TriggerEvent::Insert,
        body: vec!["SET NEW.status = 'active'".into()],
    });
    let mut row = vec!["1".into(), "".into()];
    apply_before_insert_triggers(&cat, &session, "t", &meta, &mut row).unwrap();
    assert_eq!(row[1], "active");
}

#[test]
fn before_insert_trigger_errors_keep_earlier_assignments() {
    let mut cat = rusql::messages::MessageCatalog::new();
    cat.insert("programs.unsupported_body", "unsupported: %{detail}");
    let mut session = Session::new(1, "root");
    let meta = TableMeta {
        name: "t".into(),
        columns: vec![ColumnDef::new("id", "INT"), ColumnDef::new("status", "VARCHAR(16)")],
        ..Default::default()
    };
    let trigger = |body: Vec<&str>| TriggerMeta {
        schema: DEFAULT_SCHEMA.into(),
        table: "t".into(),
        name: "tr".into(),
        timing: TriggerTiming::Before,
        event: TriggerEvent::Insert,
        body: body.into_iter().map(str::to_string).collect(),
    };
    session.catalog.create_trigger(trigger(vec!["set NEW.id = \"7\"", "DELETE FROM t"]));
    let mut row = vec!["1".to_string(), "".to_string()];
    assert_eq!(
        apply_before_insert_triggers(&cat, &session, "t", &meta, &mut row),
        Err(ExecError::Message("unsupported: DELETE FROM t".into()))
    );
    assert_eq!(row, vec!["7".to_string(), "".to_string()]);

    session.catalog.create_trigger(trigger(vec!["set new.id = 8"]));
    assert_eq!(
        apply_before_insert_triggers(&cat, &session, "t", &meta, &mut row),
        Err(ExecError::Message("unsupported: set new.id = 8".into()))
    );
    session.catalog.create_trigger(trigger(vec!["SET NEW.missing = 1"]));
    assert_eq!(
        apply_before_insert_triggers(&cat, &session, "t", &meta, &mut row),
        Err(ExecError::Message("column 'missing' not found".into()))
    );
    session.catalog.create_trigger(trigger(vec!["SET NEW.status"]));
    assert_eq!(
        apply_before_insert_triggers(&cat, &session, "t", &meta, &mut row),
        Err(ExecError::Message("unsupported: SET NEW.status".into()))
    );
    let mut short = vec!["1".to_string()];
    session.catalog.create_trigger(trigger(vec!["SET NEW.STATUS = x"]));
    assert_eq!(
        apply_before_insert_triggers(&cat, &session, "t", &meta, &mut short),
        Err(ExecError::Message("column index out of range".into()))
    );
}

fn recurring(status: &str) -> EventMeta {
    EventMeta {
        schema: DEFAULT_SCHEMA.into(),
        name: "e".into(),
        schedule_type: "RECURRING".into(),
        execute_at: None,
        interval_value: Some("1".into()),
        interval_field: Some("HOUR".into()),
        status: status.into(),
        body: "SELECT 1".into(),
        last_executed: None,
        starts: None,
        ends: None,
        definer: None,
        on_completion: None,
        comment: None,
    }
}

#[test]
fn events_due_by_schedule() {
    let now = "2026-09-19 12:00:00";
    let mut e = recurring("ENABLED");
    assert!(event_is_due(&e, now));
    e.last_executed = Some("2026-09-19 11:30:00".into());
    assert!(!event_is_due(&e, now));
    e.last_executed = Some("2026-09-19 11:00:00".into());
    assert!(event_is_due(&e, now));
    e.starts = Some("2026-09-20 00:00:00".into());
    assert!(!event_is_due(&e, now));
    e.starts = None;
    e.ends = Some("2026-09-19 11:59:59".into());
    assert!(!event_is_due(&e, now));
    e.ends = Some(now.into());
    assert!(event_is_due(&e, now));
    e.interval_field = Some("FORTNIGHT".into());
    assert!(!event_is_due(&e, now));
    assert!(!event_is_due(&recurring("DISABLED"), now));
    let mut once = recurring("enabled");
    once.schedule_type = "ONE TIME".into();
    assert!(!event_is_due(&once, now));
    once.execute_at = Some(now.into());
    assert!(event_is_due(&once, now));
    once.execute_at = Some("2026-09-19 12:00:01".into());
    assert!(!event_is_due(&once, now));
}

fn idx_session() -> Session {
    let mut session = Session::new(1, "root");
    session.catalog.create_table(TableMeta {
        name: "idx_t".into(),
        schema: "rusql".into(),
        columns: vec![pk_col("id"), ColumnDef::new("name", "VARCHAR(32)")],
        auto_increment_next: None,
        ..Default::default()
    });
    session
}

fn idx_indexes() -> Vec<IndexMeta> {
    vec![IndexMeta::new("idx_name", "idx_t", vec!["name".to_string()])]
}

#[test]
fn show_index_lists_primary_and_secondary() {
    let session = idx_session();
    match show_index_for_table(&idx_indexes(), &session, "idx_t").unwrap() {
        QueryResult::Rows { columns, rows } => {
            assert_eq!(columns[2], "Key_name");
            assert_eq!(columns[3], "Seq_in_index");
            assert_eq!(columns[4], "Column_name");
            assert!(rows.iter().any(|r| r[2] == "PRIMARY" && r[4] == "id"));
            assert!(rows.iter().any(|r| r[2] == "idx_name" && r[4] == "name"));
        }
        _ => panic!("expected rows"),
    }
}

#[test]
fn info_schema_schemata_and_statistics() {
    match scan_information_schema_schemata(&[DEFAULT_SCHEMA.into()]) {
        QueryResult::Rows { rows, .. } => {
            assert_eq!(rows[0][0], "rusql");
        }
        _ => panic!("expected rows"),
    }
    let session = idx_session();
    match scan_information_schema_statistics(vec!["idx_t".to_string()], &idx_indexes(), &session).unwrap() {
        QueryResult::Rows { rows, .. } => {
            assert!(rows.iter().any(|r| r[2] == "PRIMARY" && r[4] == "id"));
            assert!(rows.iter().any(|r| r[2] == "idx_name" && r[4] == "name"));
        }
        _ => panic!("expected rows"),
    }
}

fn texts(v: &[&str]) -> Vec<String> {
    v.iter().map(|s| s.to_string()).collect()
}

#[test]
fn show_index_sorted_rows_explicit_primary_and_missing_table() {
    let session = idx_session();
    let indexes = vec![
        IndexMeta::new("b_idx", "IDX_T", vec!["name".to_string(), "id".to_string()]),
        IndexMeta::new("a_idx", "other", vec!["x".to_string()]),
        IndexMeta::new("idx_name", "idx_t", vec!["name".to_string()]),
    ];
    let (cols, rows) = rows_of(show_index_for_table(&indexes, &session, "idx_t").unwrap());
    assert_eq!(cols, texts(&["Table", "Non_unique", "Key_name", "Seq_in_index", "Column_name", "Index_type"]));
    assert_eq!(
        rows,
        vec![
            texts(&["idx_t", "0", "PRIMARY", "1", "id", "BTREE"]),
            texts(&["idx_t", "1", "b_idx", "2", "id", "BTREE"]),
            texts(&["idx_t", "1", "b_idx", "1", "name", "BTREE"]),
            texts(&["idx_t", "1", "idx_name", "1", "name", "BTREE"]),
        ]
    );
    let with_primary = vec![IndexMeta::new("PRIMARY", "idx_t", vec!["name".to_string()])];
    let (_, rows) = rows_of(show_index_for_table(&with_primary, &session, "idx_t").unwrap());
    assert_eq!(rows, vec![texts(&["idx_t", "0", "PRIMARY", "1", "name", "BTREE"])]);
    match show_index_for_table(&indexes, &session, "nope") {
        Err(ExecError::Storage(StorageError::TableNotFound(n))) => assert_eq!(n, "nope"),
        other => panic!("expected a not-found error, got {other:?}"),
    }
}

#[test]
fn statistics_rows_sorted_and_missing_table() {
    let mut session = idx_session();
    session.catalog.create_table(TableMeta {
        name: "a".into(),
        schema: "rusql".into(),
        columns: vec![pk_col("k")],
        auto_increment_next: None,
        ..Default::default()
    });
    let (cols, rows) = rows_of(
        scan_information_schema_statistics(vec!["idx_t".to_string(), "a".to_string()], &idx_indexes(), &session).unwrap(),
    );
    assert_eq!(cols.len(), 7);
    assert_eq!(cols[5], "NON_UNIQUE");
    assert_eq!(
        rows,
        vec![
            texts(&["rusql", "a", "PRIMARY", "1", "k", "0", "BTREE"]),
            texts(&["rusql", "idx_t", "PRIMARY", "1", "id", "0", "BTREE"]),
            texts(&["rusql", "idx_t", "idx_name", "1", "name", "1", "BTREE"]),
        ]
    );
    match scan_information_schema_statistics(vec!["zz".to_string(), "a".to_string()], &idx_indexes(), &session) {
        Err(ExecError::Storage(StorageError::TableNotFound(n))) => assert_eq!(n, "zz"),
        other => panic!("expected a not-found error, got {other:?}"),
    }
}

#[test]
fn quote_sql_string_doubles_quotes() {
    assert_eq!(quote_sql_string("it's"), "'it''s'");
    assert_eq!(quote_sql_string(""), "''");
}

#[test]
fn replace_row_ref_any_case_and_resumes_after_replacement() {
    let mut s = "old.a + OLD.A + old.ab".to_string();
    replace_row_ref(&mut s, "OLD", "a", "old.a");
    assert_eq!(s, "old.a + old.a + old.ab");
    let mut s = "x".to_string();
    replace_row_ref(&mut s, "OLD", "id", "1");
    assert_eq!(s, "x");
}

#[test]
fn substitute_old_new_quotes_cells() {
    let meta = TableMeta {
        name: "t".into(),
        schema: "rusql".into(),
        columns: vec![ColumnDef::new("id", "INT"), ColumnDef::new("name", "TEXT"), ColumnDef::new("z", "INT")],
        auto_increment_next: None,
        ..Default::default()
    };
    let old_row = vec!["1".to_string(), "o'k".to_string()];
    let new_row = vec!["2".to_string(), "b".to_string(), "9".to_string()];
    let sql = "INSERT INTO audit VALUES (OLD.id, old.name, NEW.name, OLD.z, new.z)";
    assert_eq!(
        substitute_old_new(sql, &meta, &old_row, Some(&new_row)).unwrap(),
        "INSERT INTO audit VALUES ('1', 'o''k', 'b', '', '9')"
    );
    assert_eq!(
        substitute_old_new(sql, &meta, &old_row, None).unwrap(),
        "INSERT INTO audit VALUES ('1', 'o''k', NEW.name, '', new.z)"
    );
}
