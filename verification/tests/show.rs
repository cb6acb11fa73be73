use rusql::auth::AUTH_PLUGIN_NATIVE;
use rusql::catalog::{ColumnDef, EventMeta, Session, TableMeta, ViewMeta, DEFAULT_SCHEMA};
use rusql::info_schema::{scan_information_schema_columns, DEFAULT_CHARSET, DEFAULT_COLLATION};
use rusql::messages::MessageCatalog;
use rusql::name_map::NameMap;
use rusql::privileges::{Account, PrivilegeStore};
use rusql::processlist::ConnectionRegistry;
use rusql::programs::{FunctionMeta, ProcedureMeta, TriggerEvent, TriggerMeta, TriggerTiming};
use rusql::results::{ExecError, QueryResult, StorageError};
use rusql::show_commands::{
    list_show_tables, scan_information_schema_tables, show_character_set, show_create_database, show_create_event,
    show_create_function, show_create_procedure, show_create_trigger, show_create_user,
    show_engines, show_events, show_function_status, show_procedure_status, show_status,
    show_table_status, show_triggers, show_warnings,
};
use std::sync::Arc;

fn catalog() -> MessageCatalog {
    let mut cat = MessageCatalog::new();
    cat.insert("storage.database_not_found", "Unknown database '%{name}'");
    cat.insert("programs.event_not_found", "Unknown event '%{name}'");
    cat.insert("programs.function_not_found", "FUNCTION %{name} does not exist");
    cat.insert("programs.procedure_not_found", "PROCEDURE %{name} does not exist");
    cat.insert("programs.trigger_not_found", "Trigger does not exist: %{name}");
    cat.insert("sql.user_not_found", "Operation failed for %{account}");
    cat
}

fn strings(v: &[&str]) -> Vec<String> {
    v.iter().map(|s| s.to_string()).collect()
}

fn databases() -> Vec<String> {
    strings(&["rusql"])
}

fn rows_of(r: QueryResult) -> (Vec<String>, Vec<Vec<String>>) {
    match r {
        QueryResult::Rows { columns, rows } => (columns, rows),
        other => panic!("expected rows, got {other:?}"),
    }
}

#[test]
fn show_warnings_columns_and_empty_rows() {
    let (columns, rows) = rows_of(show_warnings());
    assert_eq!(columns, strings(&["Level", "Code", "Message"]));
    assert!(rows.is_empty());
}

#[test]
fn show_engines_columns_and_innodb_default() {
    let (columns, rows) = rows_of(show_engines());
    assert_eq!(columns, strings(&["Engine", "Support", "Comment", "Transactions", "XA", "Savepoints"]));
    assert_eq!(columns.len(), 6);
    let innodb = rows.iter().find(|r| r[0] == "InnoDB").expect("InnoDB row");
    assert_eq!(innodb[1], "DEFAULT");
    assert_eq!(innodb[3], "YES");
    assert_eq!(innodb[4], "YES");
    assert_eq!(innodb[5], "YES");
    assert!(rows.iter().any(|r| r[0] == "MEMORY" && r[1] == "YES"));
    assert!(rows.iter().any(|r| r[0] == "MyISAM" && r[1] == "YES"));
    assert!(rows.iter().any(|r| r[0] == "PERFORMANCE_SCHEMA" && r[1] == "YES"));
    assert_eq!(rows.len(), 4);
}

#[test]
fn show_character_set_columns_utf8mb4_and_like() {
    let (columns, rows) = rows_of(show_character_set(None));
    assert_eq!(columns, strings(&["Charset", "Description", "Default collation", "Maxlen"]));
    assert_eq!(rows.len(), 1);
    assert_eq!(rows[0][0], "utf8mb4");
    assert_eq!(rows[0][1], "UTF-8 Unicode");
    assert_eq!(rows[0][2], DEFAULT_COLLATION);
    assert_eq!(rows[0][3], "4");
    let (_, rows) = rows_of(show_character_set(Some("utf8%")));
    assert_eq!(rows.len(), 1);
    assert_eq!(rows[0][0], "utf8mb4");
    let (_, rows) = rows_of(show_character_set(Some("no_such%")));
    assert!(rows.is_empty());
}

#[test]
fn show_create_database_uses_live_catalog() {
    let cat = catalog();
    let mut dbs = databases();
    match show_create_database(&cat, &dbs, None, "rusql") {
        Ok(QueryResult::Rows { columns, rows }) => {
            assert_eq!(columns, strings(&["Database", "Create Database"]));
            assert_eq!(rows.len(), 1);
            assert_eq!(rows[0][0], "rusql");
            assert!(rows[0][1].contains("CREATE DATABASE `rusql`"));
            assert!(rows[0][1].contains(DEFAULT_CHARSET));
            assert!(rows[0][1].contains(DEFAULT_COLLATION));
        }
        other => panic!("expected rows, got {other:?}"),
    }
    dbs.push("gap_cs".to_string());
    let cs = Some(("utf8mb4".to_string(), "utf8mb4_0900_ai_ci".to_string()));
    match show_create_database(&cat, &dbs, cs, "gap_cs") {
        Ok(QueryResult::Rows { rows, .. }) => {
            assert_eq!(
                rows[0][1],
                "CREATE DATABASE `gap_cs` /*!40100 DEFAULT CHARACTER SET utf8mb4 COLLATE utf8mb4_0900_ai_ci */"
            );
        }
        other => panic!("expected live collation, got {other:?}"),
    }
    match show_create_database(&cat, &dbs, None, "no_such_db") {
        Err(ExecError::Mysql { code, message }) => {
            assert_eq!(code, 1049);
            assert!(message.contains("no_such_db"));
        }
        other => panic!("expected errno 1049, got {other:?}"),
    }
}

#[test]
fn show_create_database_quotes_backquotes() {
    let cat = catalog();
    let dbs = strings(&["we`ird"]);
    match show_create_database(&cat, &dbs, None, "we`ird") {
        Ok(QueryResult::Rows { rows, .. }) => assert!(rows[0][1].starts_with("CREATE DATABASE `we``ird`")),
        other => panic!("expected rows, got {other:?}"),
    }
}

const STATUS_NAMES: [&str; 10] = [
    "Aborted_connects",
    "Bytes_received",
    "Bytes_sent",
    "Connections",
    "Open_tables",
    "Questions",
    "Slow_queries",
    "Threads_connected",
    "Threads_running",
    "Uptime",
];

#[test]
fn show_status_catalog_and_like() {
    let session = Session::new(1, "root");
    let (columns, rows) = rows_of(show_status(None, &session));
    assert_eq!(columns, strings(&["Variable_name", "Value"]));
    assert_eq!(rows.len(), STATUS_NAMES.len());
    assert!(rows.windows(2).all(|w| w[0][0] <= w[1][0]));
    for name in STATUS_NAMES {
        assert!(rows.iter().any(|r| r[0] == name));
    }
    let threads = rows.iter().find(|r| r[0] == "Threads_connected").unwrap();
    assert_eq!(threads[1], "1");
    let uptime = rows.iter().find(|r| r[0] == "Uptime").unwrap();
    assert_eq!(uptime[1], "0");
    let (_, rows) = rows_of(show_status(Some("Threads%"), &session));
    let names: Vec<_> = rows.iter().map(|r| r[0].as_str()).collect();
    assert_eq!(names, vec!["Threads_connected", "Threads_running"]);
    let (_, rows) = rows_of(show_status(Some("not_a_real_status%"), &session));
    assert!(rows.is_empty());
}

#[test]
fn show_status_threads_connected_follows_registry() {
    let mut session = Session::new(1, "root");
    let mut registry = ConnectionRegistry::new();
    registry.register(1, "root", "%", "rusql", 0);
    registry.register(2, "root", "%", "rusql", 0);
    session.process_list = Some(Arc::new(registry));
    let (_, rows) = rows_of(show_status(None, &session));
    let threads = rows.iter().find(|r| r[0] == "Threads_connected").unwrap();
    assert_eq!(threads[1], "2");
}

#[test]
fn show_events_empty_columns_like_and_unknown_db() {
    let cat = catalog();
    let session = Session::new(1, "root");
    match show_events(&cat, &databases(), &session, None, None) {
        Ok(QueryResult::Rows { columns, rows }) => {
            assert_eq!(columns.len(), 15);
            assert_eq!(columns[0], "Db");
            assert_eq!(columns[1], "Name");
            assert_eq!(columns[10], "Status");
            assert_eq!(columns[12], "character_set_client");
            assert_eq!(columns[13], "collation_connection");
            assert_eq!(columns[14], "Database Collation");
            assert!(rows.is_empty());
        }
        other => panic!("expected empty rows, got {other:?}"),
    }
    match show_events(&cat, &databases(), &session, None, Some("e%")) {
        Ok(QueryResult::Rows { rows, .. }) => assert!(rows.is_empty()),
        other => panic!("expected empty LIKE, got {other:?}"),
    }
    match show_events(&cat, &databases(), &session, Some("no_such_db"), None) {
        Err(ExecError::Mysql { code, message }) => {
            assert_eq!(code, 1049);
            assert!(message.contains("no_such_db"));
        }
        other => panic!("expected errno 1049, got {other:?}"),
    }
}

fn event(name: &str, schedule: &str) -> EventMeta {
    EventMeta {
        schema: DEFAULT_SCHEMA.into(),
        name: name.into(),
        schedule_type: schedule.into(),
        execute_at: None,
        interval_value: None,
        interval_field: None,
        status: "ENABLED".into(),
        body: "SELECT 1".into(),
        last_executed: None,
        starts: None,
        ends: None,
        definer: None,
        on_completion: None,
        comment: None,
    }
}

#[test]
fn show_create_event_unknown_is_errno_1539() {
    let cat = catalog();
    let session = Session::new(1, "root");
    for (db, name) in [(None, "e"), (Some("rusql"), "no_such")] {
        match show_create_event(&cat, &session, db, name) {
            Err(ExecError::Mysql { code, message }) => {
                assert_eq!(code, 1539);
                assert!(message.contains(name));
            }
            other => panic!("expected errno 1539, got {other:?}"),
        }
    }
}

#[test]
fn show_create_event_reconstructed_ddl() {
    let cat = catalog();
    let mut session = Session::new(1, "root");
    let mut e = event("e", "ONE TIME");
    e.execute_at = Some("2038-01-01 00:00:00".into());
    session.catalog.create_event(e);
    match show_create_event(&cat, &session, None, "e") {
        Ok(QueryResult::Rows { columns, rows }) => {
            assert_eq!(
                columns,
                strings(&[
                    "Event",
                    "sql_mode",
                    "time_zone",
                    "Create Event",
                    "character_set_client",
                    "collation_connection",
                    "Database Collation"
                ])
            );
            assert_eq!(rows[0][0], "e");
            assert_eq!(rows[0][2], "SYSTEM");
            assert_eq!(rows[0][3], "CREATE EVENT `e` ON SCHEDULE AT '2038-01-01 00:00:00' DO SELECT 1");
        }
        other => panic!("expected reconstructed DDL, got {other:?}"),
    }
    // a name in another ASCII case finds the same event
    assert!(show_create_event(&cat, &session, Some("RUSQL"), "E").is_ok());
}

#[test]
fn show_create_event_reconstructs_starts_ends() {
    let cat = catalog();
    let mut session = Session::new(1, "root");
    let mut e = event("r", "RECURRING");
    e.interval_value = Some("1".into());
    e.interval_field = Some("HOUR".into());
    e.starts = Some("2026-09-19 12:00:00".into());
    e.ends = Some("2026-09-20 12:00:00".into());
    session.catalog.create_event(e);
    match show_create_event(&cat, &session, None, "r") {
        Ok(QueryResult::Rows { rows, .. }) => {
            assert_eq!(
                rows[0][3],
                "CREATE EVENT `r` ON SCHEDULE EVERY 1 HOUR STARTS '2026-09-19 12:00:00' ENDS '2026-09-20 12:00:00' DO SELECT 1"
            );
        }
        other => panic!("expected STARTS/ENDS in DDL, got {other:?}"),
    }
    let mut bare = event("b", "recurring");
    bare.body = "DO_IT".into();
    session.catalog.create_event(bare);
    match show_create_event(&cat, &session, None, "b") {
        Ok(QueryResult::Rows { rows, .. }) => {
            assert_eq!(rows[0][3], "CREATE EVENT `b` ON SCHEDULE EVERY 1 HOUR DO DO_IT");
        }
        other => panic!("expected defaults, got {other:?}"),
    }
}

#[test]
fn show_create_function_columns_reconstructed_ddl_and_unknown() {
    let cat = catalog();
    let mut session = Session::new(1, "root");
    session.catalog.create_function(FunctionMeta {
        schema: DEFAULT_SCHEMA.into(),
        name: "f".into(),
        return_type: "INT".into(),
        return_expr: "42".into(),
    });
    match show_create_function(&cat, &session, None, "f") {
        Ok(QueryResult::Rows { columns, rows }) => {
            assert_eq!(
                columns,
                strings(&[
                    "Function",
                    "sql_mode",
                    "Create Function",
                    "character_set_client",
                    "collation_connection",
                    "Database Collation"
                ])
            );
            assert_eq!(rows.len(), 1);
            assert_eq!(rows[0][0], "f");
            assert_eq!(rows[0][1], "");
            assert_eq!(rows[0][2], "CREATE FUNCTION `f`() RETURNS INT BEGIN RETURN 42; END");
            assert!(!rows[0][2].contains("DEFINER"));
            assert_eq!(rows[0][3], DEFAULT_CHARSET);
            assert_eq!(rows[0][4], DEFAULT_COLLATION);
            assert_eq!(rows[0][5], DEFAULT_COLLATION);
        }
        other => panic!("expected rows, got {other:?}"),
    }
    match show_create_function(&cat, &session, None, "no_such_fn") {
        Err(ExecError::Mysql { code, message }) => {
            assert_eq!(code, 1305);
            assert!(message.contains("no_such_fn"));
        }
        other => panic!("expected errno 1305, got {other:?}"),
    }
}

#[test]
fn show_create_procedure_columns_reconstructed_ddl_and_unknown() {
    let cat = catalog();
    let mut session = Session::new(1, "root");
    session.catalog.create_procedure(ProcedureMeta {
        schema: DEFAULT_SCHEMA.into(),
        name: "p".into(),
        body: vec!["INSERT INTO t VALUES (42)".into()],
    });
    match show_create_procedure(&cat, &session, None, "p") {
        Ok(QueryResult::Rows { columns, rows }) => {
            assert_eq!(
                columns,
                strings(&[
                    "Procedure",
                    "sql_mode",
                    "Create Procedure",
                    "character_set_client",
                    "collation_connection",
                    "Database Collation"
                ])
            );
            assert_eq!(rows.len(), 1);
            assert_eq!(rows[0][0], "p");
            assert_eq!(rows[0][1], "");
            assert_eq!(rows[0][2], "CREATE PROCEDURE `p`() BEGIN INSERT INTO t VALUES (42); END");
            assert!(!rows[0][2].contains("DEFINER"));
            assert_eq!(rows[0][3], DEFAULT_CHARSET);
            assert_eq!(rows[0][4], DEFAULT_COLLATION);
            assert_eq!(rows[0][5], DEFAULT_COLLATION);
        }
        other => panic!("expected rows, got {other:?}"),
    }
    match show_create_procedure(&cat, &session, None, "no_such_proc") {
        Err(ExecError::Mysql { code, message }) => {
            assert_eq!(code, 1305);
            assert!(message.contains("no_such_proc"));
        }
        other => panic!("expected errno 1305, got {other:?}"),
    }
}

#[test]
fn show_create_procedure_with_empty_or_many_statements() {
    let cat = catalog();
    let mut session = Session::new(1, "root");
    session.catalog.create_procedure(ProcedureMeta { schema: DEFAULT_SCHEMA.into(), name: "e".into(), body: vec![] });
    session.catalog.create_procedure(ProcedureMeta {
        schema: DEFAULT_SCHEMA.into(),
        name: "two".into(),
        body: vec!["SELECT 1".into(), "SELECT 2".into()],
    });
    let (_, rows) = rows_of(show_create_procedure(&cat, &session, None, "e").unwrap());
    assert_eq!(rows[0][2], "CREATE PROCEDURE `e`() BEGIN END");
    let (_, rows) = rows_of(show_create_procedure(&cat, &session, None, "TWO").unwrap());
    assert_eq!(rows[0][2], "CREATE PROCEDURE `two`() BEGIN SELECT 1; SELECT 2; END");
}

fn session_with_trigger(name: &str, table: &str) -> Session {
    let mut session = Session::new(1, "root");
    session.catalog.create_table(TableMeta {
        name: table.into(),
        schema: DEFAULT_SCHEMA.into(),
        columns: vec![ColumnDef::new("id", "INT")],
        auto_increment_next: None,
        ..Default::default()
    });
    session.catalog.create_trigger(TriggerMeta {
        schema: DEFAULT_SCHEMA.into(),
        table: table.into(),
        name: name.into(),
        timing: TriggerTiming::Before,
        event: TriggerEvent::Insert,
        body: vec!["SET NEW.id = NEW.id".into()],
    });
    session
}

#[test]
fn show_create_trigger_columns_reconstructed_ddl_and_unknown() {
    let cat = catalog();
    let session = session_with_trigger("tr_src", "src");
    match show_create_trigger(&cat, &session, None, "tr_src") {
        Ok(QueryResult::Rows { columns, rows }) => {
            assert_eq!(
                columns,
                strings(&[
                    "Trigger",
                    "sql_mode",
                    "SQL Original Statement",
                    "character_set_client",
                    "collation_connection",
                    "Database Collation",
                    "Created"
                ])
            );
            assert_eq!(rows.len(), 1);
            assert_eq!(rows[0][0], "tr_src");
            assert_eq!(rows[0][1], "");
            assert_eq!(rows[0][2], "CREATE TRIGGER `tr_src` BEFORE INSERT ON `src` FOR EACH ROW SET NEW.id = NEW.id");
            assert_eq!(rows[0][3], DEFAULT_CHARSET);
            assert_eq!(rows[0][4], DEFAULT_COLLATION);
            assert_eq!(rows[0][5], DEFAULT_COLLATION);
            assert_eq!(rows[0][6], "");
        }
        other => panic!("expected rows, got {other:?}"),
    }
    match show_create_trigger(&cat, &session, None, "no_such_trigger") {
        Err(ExecError::Mysql { code, message }) => {
            assert_eq!(code, 1360);
            assert!(message.contains("no_such_trigger"));
        }
        other => panic!("expected errno 1360, got {other:?}"),
    }
}

#[test]
fn show_create_user_reconstructed_ddl_and_unknown() {
    let cat = catalog();
    let mut store = PrivilegeStore::new();
    store.create_user(&Account::new("app", "%"), "secret", AUTH_PLUGIN_NATIVE, false).unwrap();
    match show_create_user(&cat, &store, "app", "%") {
        Ok(QueryResult::Rows { columns, rows }) => {
            assert_eq!(columns, vec!["CREATE USER for app@%".to_string()]);
            assert_eq!(rows.len(), 1);
            assert_eq!(rows[0][0], "CREATE USER `app`@`%` IDENTIFIED WITH 'mysql_native_password'");
            assert!(!rows[0][0].contains("secret"));
            assert!(!rows[0][0].contains("BY "));
            assert!(!rows[0][0].contains("AS "));
        }
        other => panic!("expected rows, got {other:?}"),
    }
    match show_create_user(&cat, &store, "no_such", "%") {
        Err(ExecError::Mysql { code, message }) => {
            assert_eq!(code, 3162);
            assert!(message.contains("no_such"));
        }
        other => panic!("expected errno 3162, got {other:?}"),
    }
}

#[test]
fn show_function_status_columns_catalog_and_like() {
    let mut session = Session::new(1, "root");
    session.catalog.create_function(FunctionMeta {
        schema: DEFAULT_SCHEMA.into(),
        name: "f".into(),
        return_type: "INT".into(),
        return_expr: "42".into(),
    });
    let (columns, rows) = rows_of(show_function_status(&session, None));
    assert_eq!(columns.len(), 11);
    assert_eq!(columns[0], "Db");
    assert_eq!(columns[10], "Database Collation");
    assert_eq!(rows.len(), 1);
    assert_eq!(
        rows[0],
        strings(&[DEFAULT_SCHEMA, "f", "FUNCTION", "root@%", "", "", "DEFINER", "", DEFAULT_CHARSET, DEFAULT_COLLATION, DEFAULT_COLLATION])
    );
    let (_, rows) = rows_of(show_function_status(&session, Some("f%")));
    assert_eq!(rows.len(), 1);
    assert_eq!(rows[0][1], "f");
    let (_, rows) = rows_of(show_function_status(&session, Some("no_such%")));
    assert!(rows.is_empty());
}

#[test]
fn show_procedure_status_columns_catalog_and_like() {
    let mut session = Session::new(1, "root");
    for (schema, name) in [("zz", "a"), (DEFAULT_SCHEMA, "q"), (DEFAULT_SCHEMA, "p")] {
        session.catalog.create_procedure(ProcedureMeta {
            schema: schema.into(),
            name: name.into(),
            body: vec!["INSERT INTO src VALUES (42)".into()],
        });
    }
    let (columns, rows) = rows_of(show_procedure_status(&session, None));
    assert_eq!(columns[2], "Type");
    let order: Vec<(&str, &str)> = rows.iter().map(|r| (r[0].as_str(), r[1].as_str())).collect();
    assert_eq!(order, vec![(DEFAULT_SCHEMA, "p"), (DEFAULT_SCHEMA, "q"), ("zz", "a")]);
    assert_eq!(rows[0][2], "PROCEDURE");
    assert_eq!(rows[0][3], "root@%");
    assert_eq!(rows[0][6], "DEFINER");
    let (_, rows) = rows_of(show_procedure_status(&session, Some("p%")));
    assert_eq!(rows.len(), 1);
    assert_eq!(rows[0][1], "p");
    let (_, rows) = rows_of(show_procedure_status(&session, Some("no_such%")));
    assert!(rows.is_empty());
}

#[test]
fn show_table_status_columns_and_like() {
    let mut session = Session::new(1, "root");
    let mut columns = vec![ColumnDef::new("id", "INT")];
    columns[0].primary_key = true;
    columns[0].auto_increment = true;
    session.catalog.create_table(TableMeta {
        name: "alpha".into(),
        schema: "rusql".into(),
        columns,
        auto_increment_next: Some(1),
        ..Default::default()
    });
    let mut counts = NameMap::new();
    counts.insert("alpha".to_string(), 1u64);
    let tables = strings(&["alpha"]);
    let (cols, rows) =
        rows_of(show_table_status(&databases(), tables.clone(), &counts, &session, None, None).unwrap());
    assert_eq!(cols.len(), 18);
    assert_eq!(cols[0], "Name");
    assert_eq!(rows.len(), 1);
    assert_eq!(rows[0][0], "alpha");
    assert_eq!(rows[0][1], "InnoDB");
    assert_eq!(rows[0][2], "10");
    assert_eq!(rows[0][3], "Dynamic");
    assert_eq!(rows[0][4], "1");
    assert_eq!(rows[0][10], "1");
    assert_eq!(rows[0][14], DEFAULT_COLLATION);
    let (_, rows) = rows_of(show_table_status(&databases(), tables.clone(), &counts, &session, None, Some("a%")).unwrap());
    assert_eq!(rows.len(), 1);
    assert_eq!(rows[0][0], "alpha");
    let (_, rows) =
        rows_of(show_table_status(&databases(), tables.clone(), &counts, &session, None, Some("no_such%")).unwrap());
    assert!(rows.is_empty());
    match show_table_status(&databases(), tables, &counts, &session, Some("missing_db"), None) {
        Err(ExecError::Storage(StorageError::DatabaseNotFound(n))) => assert!(n.contains("missing_db")),
        other => panic!("expected a not-found error, got {other:?}"),
    }
}

#[test]
fn show_tables_merge_views_sorted_and_deduplicated() {
    let mut session = Session::new(1, "root");
    for name in ["v2", "app.v1", "other.x"] {
        session.catalog.create_view(ViewMeta { name: name.into(), sql: "SELECT 1".into() });
    }
    let names = list_show_tables(strings(&["b", "a", "b", "v2"]), &session, DEFAULT_SCHEMA);
    assert_eq!(names, strings(&["a", "b", "v2"]));
    let names = list_show_tables(strings(&["t"]), &session, "app");
    assert_eq!(names, strings(&["t", "v1"]));
}

#[test]
fn show_triggers_columns_catalog_like_and_unknown_db() {
    let cat = catalog();
    let session = session_with_trigger("tr_src", "src");
    match show_triggers(&cat, &databases(), &session, None, None).unwrap() {
        QueryResult::Rows { columns, rows } => {
            assert_eq!(columns.len(), 11);
            assert_eq!(columns[0], "Trigger");
            assert_eq!(rows.len(), 1);
            assert_eq!(
                rows[0],
                strings(&["tr_src", "INSERT", "src", "SET NEW.id = NEW.id", "BEFORE", "", "", "root@%", DEFAULT_CHARSET, DEFAULT_COLLATION, DEFAULT_COLLATION])
            );
        }
        other => panic!("expected rows, got {other:?}"),
    }
    let (_, rows) = rows_of(show_triggers(&cat, &databases(), &session, None, Some("tr_%")).unwrap());
    assert_eq!(rows.len(), 1);
    assert_eq!(rows[0][0], "tr_src");
    let (_, rows) = rows_of(show_triggers(&cat, &databases(), &session, None, Some("no_such%")).unwrap());
    assert!(rows.is_empty());
    match show_triggers(&cat, &databases(), &session, Some("missing_db"), None) {
        Err(ExecError::Mysql { code, message }) => {
            assert_eq!(code, 1049);
            assert!(message.contains("missing_db"));
        }
        other => panic!("expected errno 1049, got {other:?}"),
    }
}

#[test]
fn info_schema_tables() {
    let session = Session::new(1, "root");
    match scan_information_schema_tables(strings(&["a"]), &session, DEFAULT_SCHEMA) {
        QueryResult::Rows { rows, .. } => {
            assert_eq!(
                rows,
                vec![vec!["rusql".to_string(), "a".to_string(), "BASE TABLE".to_string()]]
            );
        }
        _ => panic!("expected rows"),
    }
}

#[test]
fn info_schema_tables_lists_views_by_their_rest_of_key() {
    let mut session = Session::new(1, "root");
    for name in ["v2", "app.v1", "app.a.b", "other.x"] {
        session.catalog.create_view(ViewMeta { name: name.into(), sql: "SELECT 1".into() });
    }
    match scan_information_schema_tables(strings(&["t", "t"]), &session, "app") {
        QueryResult::Rows { columns, rows } => {
            assert_eq!(columns, strings(&["TABLE_SCHEMA", "TABLE_NAME", "TABLE_TYPE"]));
            assert_eq!(
                rows,
                vec![
                    strings(&["app", "a.b", "VIEW"]),
                    strings(&["app", "t", "BASE TABLE"]),
                    strings(&["app", "v1", "VIEW"]),
                ]
            );
        }
        _ => panic!("expected rows"),
    }
    match scan_information_schema_tables(strings(&["b"]), &session, DEFAULT_SCHEMA) {
        QueryResult::Rows { rows, .. } => {
            assert_eq!(rows, vec![strings(&["rusql", "b", "BASE TABLE"]), strings(&["rusql", "v2", "VIEW"])]);
        }
        _ => panic!("expected rows"),
    }
}

#[test]
fn info_schema_columns_rows_filter_and_missing_table() {
    let mut session = Session::new(1, "root");
    let mut id = ColumnDef::new("id", "INT");
    id.nullable = false;
    session.catalog.create_table(TableMeta {
        name: "b".into(),
        schema: DEFAULT_SCHEMA.into(),
        columns: vec![id, ColumnDef::new("name", " VARCHAR(32) ")],
        auto_increment_next: None,
        foreign_keys: vec![],
    });
    session.catalog.create_table(TableMeta {
        name: "a".into(),
        schema: DEFAULT_SCHEMA.into(),
        columns: vec![ColumnDef::new("x", "BIGINT")],
        auto_increment_next: None,
        foreign_keys: vec![],
    });
    match scan_information_schema_columns(strings(&["b", "a"]), &session, None).unwrap() {
        QueryResult::Rows { columns, rows } => {
            assert_eq!(columns.len(), 8);
            assert_eq!(columns[3], "ORDINAL_POSITION");
            assert_eq!(
                rows,
                vec![
                    strings(&["rusql", "a", "x", "1", "bigint", "bigint", "YES", DEFAULT_COLLATION]),
                    strings(&["rusql", "b", "id", "1", "int", "int", "NO", DEFAULT_COLLATION]),
                    strings(&["rusql", "b", "name", "2", "varchar", "varchar(32)", "YES", DEFAULT_COLLATION]),
                ]
            );
        }
        _ => panic!("expected rows"),
    }
    match scan_information_schema_columns(strings(&["b", "a"]), &session, Some("A")).unwrap() {
        QueryResult::Rows { rows, .. } => {
            assert_eq!(rows.len(), 1);
            assert_eq!(rows[0][1], "a");
        }
        _ => panic!("expected rows"),
    }
    match scan_information_schema_columns(strings(&["c", "a"]), &session, None) {
        Err(ExecError::Storage(StorageError::TableNotFound(n))) => assert_eq!(n, "c"),
        other => panic!("expected a not-found error, got {other:?}"),
    }
}
