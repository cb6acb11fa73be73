use rusql::access::{explain_select, explain_simple_select, plan_to_rows, AccessType, ExplainPlanRow, IndexInfo, Predicate};
use rusql::catalog::{ColumnDef, ForeignKeyMeta, Session, TableMeta};
use rusql::results::{ExecError, QueryResult};
use rusql::executor::{ensure_supported_fk_action, is_information_schema_table, validate_foreign_keys};
use rusql::messages::{
    normalize_locale, replace_all, server_starting, sql_insert_column_count,
    sql_unknown_system_variable, MessageCatalog,
};
use rusql::timestamps::{
    add_schedule_interval, civil_from_days, days_from_civil, format_timestamp, parse_stamp_secs,
    utc_now_stamp,
};

#[test]
fn add_schedule_interval_units() {
    assert_eq!(
        add_schedule_interval("2026-09-19 12:00:00", "1", "HOUR").as_deref(),
        Some("2026-09-19 13:00:00")
    );
    assert_eq!(
        add_schedule_interval("2026-09-19 12:00:00", "1", "DAY").as_deref(),
        Some("2026-09-20 12:00:00")
    );
    assert_eq!(
        add_schedule_interval("2026-09-19 12:00:00", "1", "SECOND").as_deref(),
        Some("2026-09-19 12:00:01")
    );
}

#[test]
fn schedule_interval_errors_and_saturation() {
    assert_eq!(add_schedule_interval("2026-09-19 12:00:00", "x", "HOUR"), None);
    assert_eq!(add_schedule_interval("2026-09-19 12:00:00", "1", "FORTNIGHT"), None);
    assert_eq!(add_schedule_interval("yesterday", "1", "DAY"), None);
    assert_eq!(
        add_schedule_interval(" 2024-02-28 23:59:59 ", "2", "second").as_deref(),
        Some("2024-02-29 00:00:01")
    );
    assert_eq!(
        add_schedule_interval("2026-01-31 00:00:00", "1", "MONTH").as_deref(),
        Some("2026-03-02 00:00:00")
    );
}

#[test]
fn timestamps_format_and_parse() {
    assert_eq!(format_timestamp(0), "1970-01-01 00:00:00");
    assert_eq!(format_timestamp(951_782_400), "2000-02-29 00:00:00");
    assert_eq!(utc_now_stamp(86_399), "1970-01-01 23:59:59");
    assert_eq!(parse_stamp_secs("2000-02-29 00:00:00"), Some(951_782_400));
    assert_eq!(parse_stamp_secs("1969-12-31 23:59:59"), None);
    assert_eq!(parse_stamp_secs("2000-13-01 00:00:00"), None);
    assert_eq!(parse_stamp_secs("2000-01-01"), None);
    assert_eq!(civil_from_days(0), (1970, 1, 1));
    assert_eq!(civil_from_days(11_016), (2000, 2, 29));
    assert_eq!(days_from_civil(2000, 3, 1), 11_017);
    assert_eq!(days_from_civil(1969, 12, 31), -1);
}

#[test]
fn normalize_locale_aliases() {
    assert_eq!(normalize_locale("zh"), "zh-CN");
    assert_eq!(normalize_locale("en"), "en-US");
}

#[test]
fn normalize_locale_other_tags() {
    assert_eq!(normalize_locale("ZH_CN"), "zh-CN");
    assert_eq!(normalize_locale("En-Us"), "en-US");
    assert_eq!(normalize_locale("fr-FR"), "fr-fr");
}

#[test]
fn messages_fill_placeholders() {
    let mut cat = MessageCatalog::new();
    assert_eq!(server_starting(&cat, 3306), "server.starting");
    cat.insert("server.starting", "Starting rusql on port %{port}");
    assert_eq!(server_starting(&cat, 3306), "Starting rusql on port 3306");
    cat.insert("sql.unknown_system_variable", "Unknown system variable '%{name}' (%{name})");
    assert_eq!(sql_unknown_system_variable(&cat, "foo"), "Unknown system variable 'foo' (foo)");
    cat.insert("sql.insert_column_count", "%{expected} != %{actual}");
    assert_eq!(sql_insert_column_count(&cat, 3, 2), "3 != 2");
    cat.insert("server.starting", "Port %{port}");
    assert_eq!(server_starting(&cat, 1), "Port 1");
}

#[test]
fn replace_all_is_left_to_right() {
    assert_eq!(replace_all("aaa", "aa", "b"), "ba");
    assert_eq!(replace_all("abc", "x", "y"), "abc");
    assert_eq!(replace_all("%{n}%{n}", "%{n}", ""), "");
}

#[test]
fn fk_actions() {
    assert_eq!(ensure_supported_fk_action("RESTRICT", "DELETE"), Ok(()));
    assert_eq!(ensure_supported_fk_action("NO ACTION", "UPDATE"), Ok(()));
    assert_eq!(
        ensure_supported_fk_action("CASCADE", "DELETE"),
        Err(ExecError::Message("unsupported FOREIGN KEY ON DELETE CASCADE".to_string()))
    );
}

#[test]
fn foreign_keys_need_parent_and_columns() {
    let mut session = Session::new(1, "root");
    let child = TableMeta {
        name: "child".into(),
        columns: vec![ColumnDef::new("pid", "INT")],
        foreign_keys: vec![ForeignKeyMeta {
            name: None,
            columns: vec!["PID".into()],
            referenced_schema: "rusql".into(),
            referenced_table: "parent".into(),
            referenced_columns: vec!["id".into()],
            on_delete: "RESTRICT".into(),
            on_update: "RESTRICT".into(),
        }],
        ..Default::default()
    };
    assert_eq!(
        validate_foreign_keys(&session, &child),
        Err(ExecError::Message("Failed to add the foreign key constraint. Missing index for constraint 'child_ibfk_1' in the referenced table 'parent'".to_string()))
    );
    session.catalog.create_table(TableMeta {
        name: "parent".into(),
        columns: vec![ColumnDef::new("key", "INT")],
        ..Default::default()
    });
    assert_eq!(
        validate_foreign_keys(&session, &child),
        Err(ExecError::Message("Key column 'id' doesn't exist in table".to_string()))
    );
    session.catalog.create_table(TableMeta {
        name: "parent".into(),
        columns: vec![ColumnDef::new("ID", "INT")],
        ..Default::default()
    });
    assert_eq!(validate_foreign_keys(&session, &child), Ok(()));
}

#[test]
fn information_schema_names() {
    assert_eq!(is_information_schema_table("information_schema.EVENTS"), Some("events"));
    assert_eq!(is_information_schema_table("information_schema.events"), Some("events"));
    assert_eq!(is_information_schema_table("information_schema.tables"), Some("tables"));
    assert_eq!(is_information_schema_table("information_schema.TABLES"), None);
}

fn indexes() -> Vec<IndexInfo> {
    vec![
        IndexInfo { name: "PRIMARY".into(), column: "id".into() },
        IndexInfo { name: "idx_k".into(), column: "k".into() },
    ]
}

#[test]
fn eq_on_index_uses_ref() {
    let pred = Predicate::Eq { column: "k".into(), value: "42".into() };
    let row = explain_simple_select("t", Some(&pred), &indexes(), 10_000);
    assert_eq!(row.access_type, AccessType::Ref);
    assert_eq!(row.key.as_deref(), Some("idx_k"));
    assert_eq!(row.rows, 1);
}

#[test]
fn eq_on_pk_uses_const() {
    let pred = Predicate::Eq { column: "id".into(), value: "1".into() };
    let row = explain_simple_select("t", Some(&pred), &indexes(), 10_000);
    assert_eq!(row.access_type, AccessType::Const);
    assert_eq!(row.key.as_deref(), Some("PRIMARY"));
}

#[test]
fn between_uses_range() {
    let pred = Predicate::Between { column: "k".into() };
    let row = explain_simple_select("t", Some(&pred), &indexes(), 10_000);
    assert_eq!(row.access_type, AccessType::Range);
    assert_eq!(row.key.as_deref(), Some("idx_k"));
}

#[test]
fn no_predicate_full_scan() {
    let row = explain_simple_select("t", None, &indexes(), 10_000);
    assert_eq!(row.access_type, AccessType::All);
    assert!(row.key.is_none());
    assert_eq!(row.rows, 10_000);
}

#[test]
fn access_type_names_and_small_tables() {
    assert_eq!(AccessType::Range.as_str(), "range");
    assert_eq!(AccessType::All.as_str(), "ALL");
    let pred = Predicate::Between { column: "K".into() };
    assert_eq!(explain_simple_select("t", Some(&pred), &indexes(), 0).rows, 1);
    let other = Predicate::Other;
    assert_eq!(explain_simple_select("t", Some(&other), &indexes(), 0).rows, 1);
}

#[test]
fn explain_select_uses_index() {
    let indexes = vec![IndexInfo { name: "idx_k".into(), column: "k".into() }];
    let pred = Predicate::Eq { column: "k".into(), value: "42".into() };
    match explain_select("t", Some(&pred), &indexes, Some(100)) {
        QueryResult::Rows { rows, .. } => {
            assert_eq!(rows[0][3], "ref");
            assert_eq!(rows[0][4], "idx_k");
        }
        _ => panic!("expected rows"),
    }
}

#[test]
fn plan_to_rows_shape_and_full_scan() {
    let plan = ExplainPlanRow {
        id: 1,
        select_type: "SIMPLE".into(),
        table: "t".into(),
        access_type: AccessType::All,
        key: None,
        rows: 250,
        extra: String::new(),
    };
    match plan_to_rows(&plan) {
        QueryResult::Rows { columns, rows } => {
            assert_eq!(columns, vec!["id", "select_type", "table", "type", "key", "rows"]);
            assert_eq!(rows, vec![vec!["1", "SIMPLE", "t", "ALL", "", "250"]]);
        }
        _ => panic!("expected rows"),
    }
    match explain_select("t", None, &[], None) {
        QueryResult::Rows { rows, .. } => assert_eq!(rows, vec![vec!["1", "SIMPLE", "t", "ALL", "", "1"]]),
        _ => panic!("expected rows"),
    }
}
