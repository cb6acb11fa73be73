use rusql::catalog::Session;
use rusql::messages::MessageCatalog;
use rusql::name_map::NameMap;
use rusql::results::{ExecError, QueryResult};
use rusql::session_vars::{
    eval_session_var, eval_user_var, execute_set_statement, is_session_var_expr,
    is_user_var_expr, like_ci, lookup_session_var, session_var_output_name, show_variables,
    SetStatement, SetValue, VarExpr, AUTO_INCREMENT_INCREMENT, CHARSET, COLLATION_CONNECTION,
    LICENSE, MAX_ALLOWED_PACKET, SERVER_VERSION, SQL_MODE_STUB, SYSTEM_TIME_ZONE, TIME_ZONE,
    TRANSACTION_ISOLATION, VERSION_COMMENT,
};

fn catalog() -> MessageCatalog {
    let mut cat = MessageCatalog::new();
    cat.insert("sql.unknown_system_variable", "Unknown system variable '%{name}'");
    cat.insert(
        "sql.set_global_rejected",
        "Variable '%{name}' is a SESSION variable and can't be used with SET GLOBAL",
    );
    cat.insert("sql.variable_is_readonly", "Variable '%{name}' is a read only variable");
    cat.insert(
        "sql.wrong_value_for_var",
        "Variable '%{name}' can't be set to the value of '%{value}'",
    );
    cat.insert("sql.set_multi_assign_unsupported", "only one SET assignment is supported");
    cat
}

/// `SELECT @@a[.b…]` as the expression the evaluator reads.
fn sysvar(text: &str) -> VarExpr {
    let parts: Vec<String> = text.split('.').map(|s| s.to_string()).collect();
    if parts.len() == 1 {
        VarExpr::Identifier(parts[0].clone())
    } else {
        VarExpr::CompoundIdentifier(parts)
    }
}

fn eval_sql(text: &str) -> String {
    eval_session_var(&catalog(), &sysvar(text), None).unwrap().expect("expected sysvar")
}

fn eval_sql_overlay(text: &str, overlay: &NameMap<String>) -> String {
    eval_session_var(&catalog(), &sysvar(text), Some(overlay)).unwrap().expect("expected sysvar")
}

fn set(target: &str, value: SetValue) -> SetStatement {
    SetStatement::Variable {
        variables: vec![target.split('.').map(|s| s.to_string()).collect()],
        values: vec![value],
    }
}

fn rows_of(r: QueryResult) -> Vec<Vec<String>> {
    match r {
        QueryResult::Rows { rows, .. } => rows,
        other => panic!("expected rows, got {other:?}"),
    }
}

const STUBS: [&str; 16] = [
    "auto_increment_increment",
    "autocommit",
    "character_set_client",
    "character_set_connection",
    "character_set_results",
    "character_set_server",
    "collation_connection",
    "license",
    "max_allowed_packet",
    "sql_mode",
    "system_time_zone",
    "time_zone",
    "transaction_isolation",
    "tx_isolation",
    "version",
    "version_comment",
];

#[test]
fn session_var_stub_values() {
    assert_eq!(eval_sql("@@version"), SERVER_VERSION);
    assert!(SERVER_VERSION.contains("8.0"));
    assert_eq!(eval_sql("@@version_comment"), VERSION_COMMENT);
    assert_eq!(eval_sql("@@autocommit"), "1");
    assert_eq!(eval_sql("@@sql_mode"), SQL_MODE_STUB);
    assert_eq!(eval_sql("@@character_set_client"), CHARSET);
    assert_eq!(eval_sql("@@character_set_connection"), CHARSET);
    assert_eq!(eval_sql("@@character_set_results"), CHARSET);
    assert_eq!(eval_sql("@@character_set_server"), CHARSET);
    assert_eq!(eval_sql("@@collation_connection"), COLLATION_CONNECTION);
    assert_eq!(eval_sql("@@auto_increment_increment"), AUTO_INCREMENT_INCREMENT);
    assert_eq!(eval_sql("@@time_zone"), TIME_ZONE);
    assert_eq!(eval_sql("@@system_time_zone"), SYSTEM_TIME_ZONE);
    assert_eq!(eval_sql("@@transaction_isolation"), TRANSACTION_ISOLATION);
    assert_eq!(eval_sql("@@tx_isolation"), TRANSACTION_ISOLATION);
    assert_eq!(eval_sql("@@max_allowed_packet"), MAX_ALLOWED_PACKET);
    assert_eq!(eval_sql("@@license"), LICENSE);
}

#[test]
fn session_var_session_prefix_equivalent() {
    assert_eq!(eval_sql("@@session.version"), eval_sql("@@version"));
    assert_eq!(eval_sql("@@session.autocommit"), eval_sql("@@autocommit"));
    assert_eq!(eval_sql("@@SESSION.character_set_client"), eval_sql("@@character_set_client"));
    assert_eq!(eval_sql("@@local.sql_mode"), eval_sql("@@sql_mode"));
    assert_eq!(
        eval_sql("@@session.auto_increment_increment"),
        eval_sql("@@auto_increment_increment")
    );
    assert_eq!(eval_sql("@@session.time_zone"), eval_sql("@@time_zone"));
    assert_eq!(
        eval_sql("@@session.transaction_isolation"),
        eval_sql("@@transaction_isolation")
    );
    assert_eq!(eval_sql("@@session.tx_isolation"), eval_sql("@@tx_isolation"));
    assert_eq!(eval_sql("@@session.max_allowed_packet"), eval_sql("@@max_allowed_packet"));
    assert_eq!(eval_sql("@@session.license"), eval_sql("@@license"));
    assert_eq!(eval_sql("@@session.system_time_zone"), eval_sql("@@system_time_zone"));
}

#[test]
fn session_var_unknown_errno_1193() {
    for text in ["@@not_a_real_var", "@@session.not_a_real_var"] {
        match eval_session_var(&catalog(), &sysvar(text), None) {
            Err(ExecError::Mysql { code, message }) => {
                assert_eq!(code, 1193);
                assert!(message.contains("not_a_real_var"));
            }
            other => panic!("expected errno 1193, got {other:?}"),
        }
    }
}

#[test]
fn session_var_output_names() {
    assert_eq!(session_var_output_name(&sysvar("@@version")).as_deref(), Some("@@version"));
    assert_eq!(
        session_var_output_name(&sysvar("@@session.autocommit")).as_deref(),
        Some("@@session.autocommit")
    );
    assert_eq!(session_var_output_name(&sysvar("col")), None);
    assert_eq!(session_var_output_name(&VarExpr::Other), None);
}

#[test]
fn non_variable_expressions_are_not_evaluated() {
    let cat = catalog();
    assert!(matches!(eval_session_var(&cat, &sysvar("col"), None), Ok(None)));
    assert!(matches!(eval_session_var(&cat, &VarExpr::Other, None), Ok(None)));
    assert!(is_session_var_expr(&sysvar("@@version")));
    assert!(is_session_var_expr(&sysvar("@@session.version")));
    assert!(!is_session_var_expr(&sysvar("@x")));
    assert!(is_user_var_expr(&sysvar("@x")));
    assert!(!is_user_var_expr(&sysvar("@@x")));
    assert!(!is_user_var_expr(&sysvar("x")));
}

#[test]
fn show_variables_catalog_and_like() {
    let cat = catalog();
    let overlay = NameMap::new();
    match show_variables(&cat, None, &overlay, false) {
        QueryResult::Rows { columns, rows } => {
            assert_eq!(columns, vec!["Variable_name".to_string(), "Value".to_string()]);
            assert_eq!(rows.len(), STUBS.len());
            assert!(rows.windows(2).all(|w| w[0][0] <= w[1][0]));
            for name in STUBS {
                let row = rows.iter().find(|r| r[0] == name).unwrap();
                assert_eq!(row[1], lookup_session_var(&cat, name, None).unwrap());
            }
        }
        other => panic!("expected SHOW VARIABLES rows, got {other:?}"),
    }
    assert_eq!(
        rows_of(show_variables(&cat, Some("auto_increment%"), &overlay, false)),
        vec![vec!["auto_increment_increment".to_string(), AUTO_INCREMENT_INCREMENT.to_string()]]
    );
    assert!(rows_of(show_variables(&cat, Some("not_a_real_var%"), &overlay, false)).is_empty());
}

#[test]
fn show_variables_like_is_case_insensitive_with_wildcards() {
    let cat = catalog();
    let overlay = NameMap::new();
    let rows = rows_of(show_variables(&cat, Some("CHARACTER_SET_%"), &overlay, false));
    let names: Vec<&str> = rows.iter().map(|r| r[0].as_str()).collect();
    assert_eq!(
        names,
        vec![
            "character_set_client",
            "character_set_connection",
            "character_set_results",
            "character_set_server"
        ]
    );
    let rows = rows_of(show_variables(&cat, Some("t_\\_isolation"), &overlay, false));
    assert!(rows.is_empty());
    let rows = rows_of(show_variables(&cat, Some("tx_isolatio_"), &overlay, false));
    assert_eq!(rows, vec![vec!["tx_isolation".to_string(), TRANSACTION_ISOLATION.to_string()]]);
}

#[test]
fn like_matching() {
    assert!(like_ci("version", "%"));
    assert!(like_ci("version", "VERS%"));
    assert!(like_ci("version", "v_rsion"));
    assert!(like_ci("", ""));
    assert!(like_ci("", "%"));
    assert!(!like_ci("", "_"));
    assert!(!like_ci("version", "versio"));
    assert!(like_ci("version_comment", "%_comment"));
    assert!(!like_ci("version", "x%"));
}

#[test]
fn set_session_var_overlay_and_global_unaffected() {
    let cat = catalog();
    let mut overlay = NameMap::new();
    overlay.insert("autocommit".to_string(), "0".to_string());
    assert_eq!(eval_sql_overlay("@@autocommit", &overlay), "0");
    assert_eq!(eval_sql_overlay("@@session.autocommit", &overlay), "0");
    assert_eq!(eval_sql_overlay("@@global.autocommit", &overlay), "1");
    let rows = rows_of(show_variables(&cat, None, &overlay, false));
    assert_eq!(rows.iter().find(|r| r[0] == "autocommit").unwrap()[1], "0");
    let rows = rows_of(show_variables(&cat, None, &overlay, true));
    assert_eq!(rows.iter().find(|r| r[0] == "autocommit").unwrap()[1], "1");
}

#[test]
fn set_session_var_execute_autocommit_and_reset() {
    let cat = catalog();
    let mut session = Session::new(1, "root");
    execute_set_statement(&cat, &mut session, &set("@@autocommit", SetValue::Number("0".into())))
        .unwrap();
    assert_eq!(eval_sql_overlay("@@autocommit", &session.session_vars), "0");
    execute_set_statement(&cat, &mut session, &set("SESSION.autocommit", SetValue::Number("1".into())))
        .unwrap();
    assert_eq!(eval_sql_overlay("@@session.autocommit", &session.session_vars), "1");
    execute_set_statement(
        &cat,
        &mut session,
        &set("@@session.autocommit", SetValue::Number("0".into())),
    )
    .unwrap();
    session.clear_session_vars();
    assert_eq!(eval_sql_overlay("@@autocommit", &session.session_vars), "1");
}

#[test]
fn set_session_var_rejects_global_readonly_unknown() {
    let cat = catalog();
    let mut session = Session::new(1, "root");
    match execute_set_statement(&cat, &mut session, &set("GLOBAL.autocommit", SetValue::Number("0".into()))) {
        Err(ExecError::Mysql { code, message }) => {
            assert_eq!(code, 1229);
            assert!(message.contains("autocommit"));
        }
        other => panic!("expected errno 1229, got {other:?}"),
    }
    match execute_set_statement(&cat, &mut session, &set("@@version", SetValue::Text("nope".into()))) {
        Err(ExecError::Mysql { code, message }) => {
            assert_eq!(code, 1238);
            assert!(message.contains("version"));
        }
        other => panic!("expected errno 1238, got {other:?}"),
    }
    match execute_set_statement(&cat, &mut session, &set("@@not_a_real_var", SetValue::Number("1".into()))) {
        Err(ExecError::Mysql { code, message }) => {
            assert_eq!(code, 1193);
            assert!(message.contains("not_a_real_var"));
        }
        other => panic!("expected errno 1193, got {other:?}"),
    }
    let names = SetStatement::Names { charset: "utf8mb4".into(), collation: None };
    execute_set_statement(&cat, &mut session, &names).unwrap();
    assert_eq!(
        session.session_vars.get("character_set_client").map(String::as_str),
        Some("utf8mb4")
    );
}

#[test]
fn set_autocommit_words_and_bad_values() {
    let cat = catalog();
    let mut session = Session::new(1, "root");
    for (word, want) in [("OFF", "0"), (" on ", "1"), ("False", "0"), ("yes", "1")] {
        execute_set_statement(&cat, &mut session, &set("@@autocommit", SetValue::Text(word.into())))
            .unwrap();
        assert_eq!(eval_sql_overlay("@@autocommit", &session.session_vars), want);
    }
    execute_set_statement(&cat, &mut session, &set("autocommit", SetValue::Boolean(false))).unwrap();
    assert_eq!(eval_sql_overlay("@@autocommit", &session.session_vars), "0");
    match execute_set_statement(&cat, &mut session, &set("@@autocommit", SetValue::Text("maybe".into()))) {
        Err(ExecError::Mysql { code, message }) => {
            assert_eq!(code, 1231);
            assert_eq!(message, "Variable 'autocommit' can't be set to the value of 'maybe'");
        }
        other => panic!("expected errno 1231, got {other:?}"),
    }
    assert_eq!(eval_sql_overlay("@@autocommit", &session.session_vars), "0");
    match execute_set_statement(&cat, &mut session, &set("@@sql_mode", SetValue::Other("a + b".into()))) {
        Err(ExecError::Mysql { code, message }) => {
            assert_eq!(code, 1231);
            assert_eq!(message, "Variable 'SET' can't be set to the value of 'a + b'");
        }
        other => panic!("expected errno 1231, got {other:?}"),
    }
}

#[test]
fn set_isolation_updates_both_names() {
    let cat = catalog();
    let mut session = Session::new(1, "root");
    execute_set_statement(
        &cat,
        &mut session,
        &set("@@tx_isolation", SetValue::Text("READ-COMMITTED".into())),
    )
    .unwrap();
    assert_eq!(eval_sql_overlay("@@transaction_isolation", &session.session_vars), "READ-COMMITTED");
    assert_eq!(eval_sql_overlay("@@TX_ISOLATION", &session.session_vars), "READ-COMMITTED");
    execute_set_statement(
        &cat,
        &mut session,
        &set("@@time_zone", SetValue::Negated(Box::new(SetValue::Number("5".into())))),
    )
    .unwrap();
    assert_eq!(eval_sql_overlay("@@time_zone", &session.session_vars), "-5");
}

#[test]
fn set_user_variables() {
    let cat = catalog();
    let mut session = Session::new(1, "root");
    execute_set_statement(&cat, &mut session, &set("@Foo", SetValue::Number("42".into()))).unwrap();
    assert_eq!(eval_user_var(&sysvar("@foo"), Some(&session.user_vars)), Some("42".to_string()));
    assert_eq!(eval_user_var(&sysvar("@FOO"), Some(&session.user_vars)), Some("42".to_string()));
    assert_eq!(eval_user_var(&sysvar("@unset"), Some(&session.user_vars)), Some(String::new()));
    assert_eq!(eval_user_var(&sysvar("@foo"), None), Some(String::new()));
    assert_eq!(eval_user_var(&sysvar("@@foo"), Some(&session.user_vars)), None);
    execute_set_statement(&cat, &mut session, &set("@n", SetValue::Null)).unwrap();
    assert_eq!(eval_user_var(&sysvar("@n"), Some(&session.user_vars)), Some(String::new()));
    assert!(session.session_vars.get("foo").is_none());
}

#[test]
fn set_names_and_default() {
    let cat = catalog();
    let mut session = Session::new(1, "root");
    let names = SetStatement::Names { charset: "LATIN1".into(), collation: None };
    execute_set_statement(&cat, &mut session, &names).unwrap();
    assert_eq!(eval_sql_overlay("@@character_set_results", &session.session_vars), "latin1");
    assert_eq!(eval_sql_overlay("@@collation_connection", &session.session_vars), COLLATION_CONNECTION);
    let names = SetStatement::Names {
        charset: "utf8mb4".into(),
        collation: Some("utf8mb4_unicode_ci".into()),
    };
    execute_set_statement(&cat, &mut session, &names).unwrap();
    assert_eq!(eval_sql_overlay("@@collation_connection", &session.session_vars), "utf8mb4_unicode_ci");
    execute_set_statement(&cat, &mut session, &SetStatement::NamesDefault).unwrap();
    assert_eq!(eval_sql_overlay("@@character_set_client", &session.session_vars), CHARSET);
    assert_eq!(eval_sql_overlay("@@collation_connection", &session.session_vars), COLLATION_CONNECTION);
}

#[test]
fn set_multi_assignment_is_refused() {
    let cat = catalog();
    let mut session = Session::new(1, "root");
    let two = SetStatement::Variable {
        variables: vec![vec!["@a".to_string()], vec!["@b".to_string()]],
        values: vec![SetValue::Number("1".into()), SetValue::Number("2".into())],
    };
    match execute_set_statement(&cat, &mut session, &two) {
        Err(ExecError::Message(m)) => assert_eq!(m, "only one SET assignment is supported"),
        other => panic!("expected refusal, got {other:?}"),
    }
    match execute_set_statement(&cat, &mut session, &SetStatement::Other) {
        Err(ExecError::Message(m)) => assert_eq!(m, "only one SET assignment is supported"),
        other => panic!("expected refusal, got {other:?}"),
    }
    let empty = SetStatement::Variable { variables: vec![vec![]], values: vec![SetValue::Null] };
    match execute_set_statement(&cat, &mut session, &empty) {
        Err(ExecError::Mysql { code, message }) => {
            assert_eq!(code, 1193);
            assert_eq!(message, "Unknown system variable ''");
        }
        other => panic!("expected errno 1193, got {other:?}"),
    }
}
