use rusql::catalog::Session;
use rusql::grant_exec::{
    check_statement_privilege, execute_grant, execute_revoke, parse_account_ident,
    GrantObjectList, ObjectRef, PrivilegeAction, PrivilegeList, QueryShape, StatementAccess,
    TableFactorRef, MYSQL_USER_VIRTUAL_TABLE,
};
use rusql::messages::MessageCatalog;
use rusql::privileges::{Account, Privilege, PrivilegeStore};
use rusql::results::{ExecError, QueryResult};

fn name(parts: &[&str]) -> ObjectRef {
    ObjectRef { parts: parts.iter().map(|s| s.to_string()).collect(), display: parts.join(".") }
}

fn catalog() -> MessageCatalog {
    let mut cat = MessageCatalog::new();
    cat.insert("sql.command_denied", "%{command} command denied to user '%{user}'@'%{host}'");
    cat.insert(
        "sql.command_denied_table",
        "%{command} command denied to user '%{user}'@'%{host}' for table '%{table}'",
    );
    cat
}

#[test]
fn grantee_names_split_at_the_first_at() {
    let a = parse_account_ident("`app@local@host`");
    assert_eq!((a.user.as_str(), a.host.as_str()), ("app", "local@host"));
    let a = parse_account_ident("app");
    assert_eq!((a.user.as_str(), a.host.as_str()), ("app", "%"));
    let a = parse_account_ident("``bob``");
    assert_eq!((a.user.as_str(), a.host.as_str()), ("bob", "%"));
}

#[test]
fn grant_needs_a_superuser() {
    let cat = catalog();
    let mut store = PrivilegeStore::new();
    let mut session = Session::new(1, "app");
    session.host = "h".into();
    let r = execute_grant(
        &cat,
        &mut store,
        &session,
        &PrivilegeList::All,
        &GrantObjectList::Tables(vec![name(&["rusql", "*"])]),
        &["bob".to_string()],
        false,
    );
    assert_eq!(
        r,
        Err(ExecError::Mysql { code: 1142, message: "GRANT command denied to user 'app'@'h'".into() })
    );
    let root = Session::new(1, "root");
    let r = execute_grant(
        &cat,
        &mut store,
        &root,
        &PrivilegeList::All,
        &GrantObjectList::Tables(vec![name(&["rusql", "*"])]),
        &["bob".to_string()],
        true,
    );
    assert_eq!(r, Err(ExecError::Message("WITH GRANT OPTION is not supported".into())));
    let r = execute_grant(
        &cat,
        &mut store,
        &root,
        &PrivilegeList::Actions(vec![PrivilegeAction::Other]),
        &GrantObjectList::Tables(vec![name(&["rusql", "*"])]),
        &["bob".to_string()],
        false,
    );
    assert_eq!(r, Err(ExecError::Message("no supported privileges".into())));
    let r = execute_grant(
        &cat,
        &mut store,
        &root,
        &PrivilegeList::All,
        &GrantObjectList::Tables(vec![name(&["a", "b", "c"])]),
        &["bob".to_string()],
        false,
    );
    assert_eq!(r, Err(ExecError::Message("unsupported grant object: a.b.c".into())));
    let r = execute_grant(
        &cat,
        &mut store,
        &root,
        &PrivilegeList::All,
        &GrantObjectList::Other("FUNCTION f".into()),
        &["bob".to_string()],
        false,
    );
    assert_eq!(r, Err(ExecError::Message("unsupported GRANT object: FUNCTION f".into())));
    assert_eq!(store.show_grants(&Account::new("bob", "%")), vec!["GRANT USAGE ON *.* TO 'bob'@'%'".to_string()]);
}

#[test]
fn grant_then_revoke_each_target_and_grantee() {
    let cat = catalog();
    let mut store = PrivilegeStore::new();
    let root = Session::new(1, "root");
    let r = execute_grant(
        &cat,
        &mut store,
        &root,
        &PrivilegeList::Actions(vec![PrivilegeAction::Select, PrivilegeAction::Insert]),
        &GrantObjectList::Tables(vec![name(&["t1"]), name(&["app", "*"])]),
        &["bob".to_string(), "eve@h".to_string()],
        false,
    );
    assert_eq!(r, Ok(QueryResult::Affected { rows_affected: 0 }));
    let bob = Account::new("bob", "%");
    let eve = Account::new("eve", "h");
    assert!(store.has_privilege(&bob, "rusql", Some("t1"), Privilege::Insert));
    assert!(store.has_privilege(&eve, "app", Some("x"), Privilege::Select));
    assert!(!store.has_privilege(&eve, "rusql", Some("t2"), Privilege::Select));
    let r = execute_revoke(
        &cat,
        &mut store,
        &root,
        &PrivilegeList::Actions(vec![PrivilegeAction::Insert]),
        &GrantObjectList::Tables(vec![name(&["t1"])]),
        &["bob".to_string()],
    );
    assert_eq!(r, Ok(QueryResult::Affected { rows_affected: 0 }));
    assert!(!store.has_privilege(&bob, "rusql", Some("t1"), Privilege::Insert));
    assert!(store.has_privilege(&bob, "rusql", Some("t1"), Privilege::Select));
}

#[test]
fn statement_privileges_checked_for_the_session_account() {
    let cat = catalog();
    let mut store = PrivilegeStore::new();
    let mut session = Session::new(1, "app");
    session.host = "h".into();
    let select = StatementAccess::Query(QueryShape::Select { first_table: Some(name(&["t"])) });
    assert_eq!(
        check_statement_privilege(&cat, &store, &session, &select),
        Err(ExecError::Mysql {
            code: 1142,
            message: "SELECT command denied to user 'app'@'h' for table 't'".into()
        })
    );
    let virtual_table =
        StatementAccess::Query(QueryShape::Select { first_table: Some(name(&[MYSQL_USER_VIRTUAL_TABLE])) });
    assert_eq!(check_statement_privilege(&cat, &store, &session, &virtual_table), Ok(()));
    assert_eq!(
        check_statement_privilege(&cat, &store, &session, &StatementAccess::Drop),
        Err(ExecError::Mysql { code: 1142, message: "DROP command denied to user 'app'@'h'".into() })
    );
    assert_eq!(
        check_statement_privilege(&cat, &store, &session, &StatementAccess::Delete { first: None }),
        Err(ExecError::Message("DELETE requires a table".into()))
    );
    assert_eq!(
        check_statement_privilege(
            &cat,
            &store,
            &session,
            &StatementAccess::Update { table: TableFactorRef::Other("Derived".into()) }
        ),
        Err(ExecError::Message("unsupported UPDATE target: Derived".into()))
    );
    assert_eq!(
        check_statement_privilege(
            &cat,
            &store,
            &session,
            &StatementAccess::Insert { table: name(&["a", "b", "c"]) }
        ),
        Err(ExecError::Message("unsupported object: a.b.c".into()))
    );
    assert_eq!(check_statement_privilege(&cat, &store, &session, &StatementAccess::Unchecked), Ok(()));
    let root = Session::new(1, "root");
    execute_grant(
        &cat,
        &mut store,
        &root,
        &PrivilegeList::Actions(vec![PrivilegeAction::Select]),
        &GrantObjectList::Tables(vec![name(&["t"])]),
        &["app@h".to_string()],
        false,
    )
    .unwrap();
    assert_eq!(check_statement_privilege(&cat, &store, &session, &select), Ok(()));
    assert_eq!(check_statement_privilege(&cat, &store, &root, &StatementAccess::Grant), Ok(()));
    assert_eq!(
        check_statement_privilege(&cat, &store, &session, &StatementAccess::Revoke),
        Err(ExecError::Mysql { code: 1142, message: "GRANT command denied to user 'app'@'h'".into() })
    );
}
