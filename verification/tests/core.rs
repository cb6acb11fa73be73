use rusql::catalog::{
    table_storage_key, Catalog, ColumnDef, DatabaseMeta, ForeignKeyMeta, IndexMeta, Session,
    TableMeta, ViewMeta, DEFAULT_SCHEMA,
};
use rusql::collation::{Collation, DEFAULT_COLLATION};
use rusql::messages::MessageCatalog;
use rusql::privileges::{
    parse_account_ddl, Account, AccountDdl, GrantTarget, Privilege, PrivilegeSet,
    PrivilegeStore, AUTH_PLUGIN_CACHING_SHA2, AUTH_PLUGIN_NATIVE,
};
use rusql::processlist::ConnectionRegistry;
use rusql::programs::{
    program_key, trigger_key, ProcedureMeta, ProgramStore, TriggerEvent, TriggerMeta,
    TriggerTiming,
};
use rusql::types::{column_type_display, data_type_name, normalize_column_type, type_base};
use rusql::user_locks::{GetLockResult, ReleaseLockResult, UserLockRegistry};
use std::cmp::Ordering;

const EQUAL_PAIRS: &[(&str, &str)] = &[
    ("apple", "Apple"),
    ("café", "cafe"),
    ("Müller", "muller"),
    ("straße", "strasse"),
    ("Résumé", "resume"),
    ("中文", "中文"),
    ("日本語", "日本語"),
    ("🦀rust", "🦀rust"),
    ("Æsir", "ÆSIR"),
    ("naïve", "naive"),
    ("Zürich", "zurich"),
    ("Ελληνικά", "ελληνικά"),
];

const SORT_ASC: &[&str] = &[
    "apple", "Banana", "café", "Müller", "straße", "Zürich", "αβγ", "中文", "日本語", "🦀", "🦀rust",
];

const CI_0900: Collation = Collation::Utf8Mb4_0900AiCi;

const EQ_0900: &[(&str, &str)] = &[
    ("apple", "Apple"),
    ("café", "cafe"),
    ("Müller", "muller"),
    ("Résumé", "resume"),
    ("naïve", "naive"),
    ("Zürich", "zurich"),
    ("test", "TEST"),
    ("hello", "HELLO"),
    ("中文", "中文"),
    ("日本語", "日本語"),
    ("alpha", "ALPHA"),
    ("bravo", "Bravo"),
];

const NOT_EQUAL_PAIRS: &[(&str, &str)] = &[("straße", "strasse"), ("Æsir", "aesir")];

const SORT_0900: &[&str] = &[
    "alpha", "ALPHA", "apple", "Apple", "Banana", "bravo", "Bravo", "café", "charlie", "delta",
    "echo", "foxtrot",
];

#[test]
fn equal_pairs_unicode_ci() {
    for (a, b) in EQUAL_PAIRS {
        assert!(DEFAULT_COLLATION.eq(a, b), "expected equal: {a:?} vs {b:?}");
    }
}

#[test]
fn sort_order_matches_corpus() {
    let mut sorted = SORT_ASC.to_vec();
    sorted.sort_by(|a, b| DEFAULT_COLLATION.compare(a, b));
    assert_eq!(sorted, SORT_ASC);
}

#[test]
fn equal_pairs_0900_ai_ci() {
    for (a, b) in EQ_0900 {
        assert!(CI_0900.eq(a, b), "expected equal: {a:?} vs {b:?}");
    }
}

#[test]
fn not_equal_pairs_0900_ai_ci() {
    for (a, b) in NOT_EQUAL_PAIRS {
        assert!(!CI_0900.eq(a, b), "expected not equal: {a:?} vs {b:?}");
    }
}

#[test]
fn sort_order_0900_ai_ci() {
    let mut sorted = SORT_0900.to_vec();
    sorted.sort_by(|a, b| CI_0900.compare(a, b));
    assert_eq!(sorted, SORT_0900);
}

#[test]
fn unicode_ci_differs_from_0900_on_expansion() {
    assert!(DEFAULT_COLLATION.eq("straße", "strasse"));
    assert!(!CI_0900.eq("straße", "strasse"));
}

#[test]
fn case_insensitive_ordering() {
    assert_eq!(DEFAULT_COLLATION.compare("apple", "Banana"), Ordering::Less);
    assert!(DEFAULT_COLLATION.eq("test", "TEST"));
}

#[test]
fn expansion_ss_and_ae() {
    assert!(DEFAULT_COLLATION.eq("straße", "strasse"));
    assert!(DEFAULT_COLLATION.eq("straße", "STRASSE"));
}

#[test]
fn supported_collation_list() {
    assert_eq!(Collation::supported().len(), 2);
    assert_eq!(Collation::supported()[0].name(), "utf8mb4_0900_ai_ci");
    assert_eq!(Collation::supported()[1].name(), "utf8mb4_unicode_ci");
}

#[test]
fn collation_compare_is_antisymmetric() {
    assert_eq!(DEFAULT_COLLATION.compare("Banana", "apple"), Ordering::Greater);
    assert_eq!(DEFAULT_COLLATION.compare("café", "CAFE"), Ordering::Equal);
    assert_eq!(CI_0900.compare("ab", "abc"), Ordering::Less);
}

#[test]
fn collation_names() {
    assert_eq!(Collation::from_name("UTF8MB4_UNICODE_CI"), Some(Collation::Utf8Mb4UnicodeCi));
    assert_eq!(Collation::from_name("utf8mb4_0900_ai_ci"), Some(Collation::Utf8Mb4_0900AiCi));
    assert_eq!(Collation::from_name("latin1_swedish_ci"), None);
    assert_eq!(Collation::Utf8Mb4UnicodeCi.charset(), "utf8mb4");
    assert_eq!(Collation::default(), Collation::Utf8Mb4UnicodeCi);
}

#[test]
fn catalog_create_and_lookup() {
    let mut cat = Catalog::new();
    cat.create_table(TableMeta {
        name: "users".into(),
        schema: DEFAULT_SCHEMA.into(),
        columns: vec![ColumnDef::new("id", "INT")],
        auto_increment_next: None,
        ..Default::default()
    });
    assert!(cat.get_table("users").is_some());
}

#[test]
fn catalog_tables_views_and_keys() {
    assert_eq!(table_storage_key("rusql", "t"), "t");
    assert_eq!(table_storage_key("shop", "t"), "shop.t");
    let mut cat = Catalog::new();
    cat.create_table(TableMeta { name: "t".into(), schema: "shop".into(), ..Default::default() });
    assert!(cat.get_table("shop.t").is_some());
    assert!(cat.get_table("t").is_none());
    assert_eq!(cat.table_names(), vec!["shop.t".to_string()]);
    cat.drop_table("shop.t");
    assert!(cat.iter_tables().is_empty());
    cat.create_view(ViewMeta { name: "v".into(), sql: "SELECT 1".into() });
    assert!(cat.is_view("v"));
    assert_eq!(cat.get_view("v").unwrap().sql, "SELECT 1");
    assert_eq!(cat.view_names(), vec!["v".to_string()]);
}

#[test]
fn catalog_programs_and_triggers() {
    let mut cat = Catalog::new();
    cat.create_procedure(ProcedureMeta { schema: "s".into(), name: "p".into(), body: vec!["SELECT 1".into()] });
    assert!(cat.get_procedure("s", "p").is_some());
    cat.drop_procedure("s", "p");
    assert!(cat.get_procedure("s", "p").is_none());
    cat.create_function(rusql::programs::FunctionMeta {
        schema: "s".into(),
        name: "Fn".into(),
        return_type: "INT".into(),
        return_expr: "1".into(),
    });
    assert!(cat.get_function("s", "fn").is_some());
    cat.drop_function("s", "FN");
    assert!(cat.iter_functions().is_empty());
    let trig = TriggerMeta {
        schema: "s".into(),
        table: "t".into(),
        name: "tr".into(),
        timing: TriggerTiming::Before,
        event: TriggerEvent::Insert,
        body: vec![],
    };
    cat.create_trigger(trig);
    assert_eq!(cat.triggers_for_table("s", "t", TriggerTiming::Before, TriggerEvent::Insert).len(), 1);
    assert!(cat.triggers_for_table("s", "t", TriggerTiming::After, TriggerEvent::Insert).is_empty());
    assert!(cat.get_trigger("s", "tr").is_some());
    cat.drop_trigger("s", "tr");
    assert!(cat.iter_triggers().is_empty());
}

#[test]
fn column_and_index_metadata() {
    let c = ColumnDef::new("name", "VARCHAR(10)");
    assert!(c.nullable && !c.primary_key && !c.auto_increment);
    assert_eq!(c.effective_collation(), DEFAULT_COLLATION);
    let fk = ForeignKeyMeta {
        name: None,
        columns: vec!["a".into()],
        referenced_schema: "rusql".into(),
        referenced_table: "p".into(),
        referenced_columns: vec!["id".into()],
        on_delete: "RESTRICT".into(),
        on_update: "RESTRICT".into(),
    };
    assert_eq!(fk.constraint_name("child", 0), "child_ibfk_1");
    assert_eq!(fk.constraint_name("child", 4), "child_ibfk_5");
    let idx = IndexMeta::single_column("i", "t", "c");
    assert_eq!(idx.columns, vec!["c".to_string()]);
    let d = DatabaseMeta::documented_default();
    assert_eq!(d.character_set, "utf8mb4");
    assert_eq!(d.collation, "utf8mb4_unicode_ci");
}

#[test]
fn session_defaults_and_reset() {
    let mut s = Session::new(7, "app");
    assert_eq!(s.host, "%");
    assert_eq!(s.database, "rusql");
    assert_eq!(s.row_count, -1);
    s.session_vars.insert("autocommit".into(), "0".into());
    s.user_vars.insert("x".into(), "1".into());
    s.clear_session_vars();
    assert!(s.session_vars.get("autocommit").is_none());
    assert!(s.user_vars.keys().is_empty());
}

#[test]
fn grant_revoke_and_check() {
    let mut store = PrivilegeStore::new();
    let account = Account::new("app", "%");
    let target = GrantTarget { schema: "rusql".into(), table: None };
    store.grant(&account, target.clone(), PrivilegeSet::from_slice(&[Privilege::Select, Privilege::Insert]));
    assert!(store.has_privilege(&account, "rusql", Some("t"), Privilege::Select));
    assert!(store.has_privilege(&account, "rusql", Some("t"), Privilege::Insert));
    assert!(!store.has_privilege(&account, "rusql", Some("t"), Privilege::Update));
    store.revoke(&account, target, PrivilegeSet::from_slice(&[Privilege::Insert]));
    assert!(!store.has_privilege(&account, "rusql", Some("t"), Privilege::Insert));
}

#[test]
fn grant_then_revoke_restores_grants() {
    let mut store = PrivilegeStore::new();
    let account = Account::new("app", "%");
    let target = GrantTarget { schema: "s".into(), table: Some("t".into()) };
    let privs = PrivilegeSet::from_slice(&[Privilege::Delete]);
    store.grant(&account, target.clone(), privs);
    assert!(store.has_privilege(&account, "s", Some("t"), Privilege::Delete));
    assert!(!store.has_privilege(&account, "s", None, Privilege::Delete));
    assert!(!store.has_privilege(&account, "s", Some("u"), Privilege::Delete));
    store.revoke(&account, target, privs);
    assert_eq!(store.show_grants(&account), vec!["GRANT USAGE ON *.* TO 'app'@'%'".to_string()]);
    assert!(PrivilegeStore::is_superuser("ROOT"));
    assert!(store.has_privilege(&Account::new("Root", "h"), "any", None, Privilege::Drop));
}

#[test]
fn create_and_resolve_user() {
    let mut store = PrivilegeStore::new();
    let account = Account::new("app", "%");
    store.create_user(&account, "secret", AUTH_PLUGIN_NATIVE, false).unwrap();
    let resolved = store.resolve_auth("app", "127.0.0.1").unwrap();
    assert_eq!(resolved.password, "secret");
    assert_eq!(resolved.auth_plugin, AUTH_PLUGIN_NATIVE);
    store.drop_user(&account, false).unwrap();
    assert!(store.resolve_auth("app", "127.0.0.1").is_none());
}

#[test]
fn account_errors_and_specific_hosts() {
    let mut store = PrivilegeStore::new();
    let any = Account::new("app", "%");
    let local = Account::new("app", "localhost");
    store.create_user(&any, "a", AUTH_PLUGIN_NATIVE, false).unwrap();
    assert_eq!(
        store.create_user(&local, "b", AUTH_PLUGIN_NATIVE, false),
        Err("Operation CREATE USER failed for 'app'@'localhost' as it already exists".to_string())
    );
    assert_eq!(store.create_user(&local, "b", AUTH_PLUGIN_NATIVE, true), Ok(()));
    store.ensure_account(&local, "b", AUTH_PLUGIN_NATIVE);
    assert_eq!(store.resolve_auth("APP", "localhost").unwrap().password, "b");
    assert_eq!(store.resolve_auth("app", "10.0.0.1").unwrap().password, "a");
    assert_eq!(
        store.drop_user(&Account::new("nobody", "%"), false),
        Err("Operation DROP USER failed for 'nobody'@'%'. User does not exist".to_string())
    );
    assert!(store.has_accounts());
}

#[test]
fn show_grants_shape() {
    let mut store = PrivilegeStore::new();
    let account = Account::new("app", "%");
    store.grant(
        &account,
        GrantTarget { schema: "rusql".into(), table: None },
        PrivilegeSet::from_slice(&[Privilege::Select, Privilege::Insert]),
    );
    let lines = store.show_grants(&account);
    assert_eq!(lines.len(), 1);
    assert!(lines[0].contains("SELECT, INSERT"));
    assert!(lines[0].contains("`rusql`.*"));
    assert!(lines[0].contains("'app'@'%'"));
}

#[test]
fn show_grants_sorted_and_user_rows() {
    let mut store = PrivilegeStore::new();
    let b = Account::new("bob", "%");
    let a = Account::new("amy", "h");
    store.grant(&b, GrantTarget { schema: "z".into(), table: None }, PrivilegeSet::from_slice(&[Privilege::Alter]));
    store.grant(&b, GrantTarget { schema: "a".into(), table: Some("t".into()) }, PrivilegeSet::from_slice(&[Privilege::Select]));
    store.grant(&a, GrantTarget { schema: "a".into(), table: None }, PrivilegeSet::from_slice(&[Privilege::Update, Privilege::Select]));
    assert_eq!(
        store.show_grants(&b),
        vec![
            "GRANT ALTER ON `z`.* TO 'bob'@'%'".to_string(),
            "GRANT SELECT ON `a`.`t` TO 'bob'@'%'".to_string(),
        ]
    );
    assert_eq!(
        store.mysql_user_rows(),
        vec![
            ("amy".to_string(), "h".to_string(), "SELECT,UPDATE".to_string()),
            ("bob".to_string(), "%".to_string(), "SELECT,ALTER".to_string()),
        ]
    );
}

#[test]
fn privilege_names() {
    assert_eq!(Privilege::parse_name("select"), Some(Privilege::Select));
    assert_eq!(Privilege::parse_name("Alter"), Some(Privilege::Alter));
    assert_eq!(Privilege::parse_name("usage"), None);
    assert_eq!(Privilege::Index.as_str(), "INDEX");
    assert_eq!(Account::new("u", "h").display(), "'u'@'h'");
}

#[test]
fn decimal_type_names() {
    assert_eq!(data_type_name("DECIMAL(10,2)"), "decimal");
    assert_eq!(column_type_display("DECIMAL(10,2)"), "decimal(10,2)");
    assert_eq!(normalize_column_type("decimal(10, 2)"), "DECIMAL(10, 2)");
}

#[test]
fn datetime_and_json() {
    assert_eq!(data_type_name("DATETIME"), "datetime");
    assert_eq!(data_type_name("JSON"), "json");
    assert_eq!(column_type_display("TEXT"), "text");
}

#[test]
fn type_base_edges() {
    assert_eq!(type_base("  varchar (20) "), "VARCHAR");
    assert_eq!(normalize_column_type("   "), "");
    assert_eq!(normalize_column_type(" int "), "INT");
}

#[test]
fn get_lock_acquire_and_contention() {
    let mut reg = UserLockRegistry::new();
    assert_eq!(reg.get_lock(1, "gap_lock"), GetLockResult::Acquired);
    assert_eq!(reg.get_lock(1, "gap_lock"), GetLockResult::Acquired);
    assert_eq!(reg.get_lock(2, "gap_lock"), GetLockResult::Timeout);
    assert_eq!(reg.release_lock(2, "gap_lock"), ReleaseLockResult::NotHolder);
    assert_eq!(reg.release_lock(1, "gap_lock"), ReleaseLockResult::Released);
    assert_eq!(reg.release_lock(1, "gap_lock"), ReleaseLockResult::NotExists);
    assert_eq!(reg.get_lock(2, "gap_lock"), GetLockResult::Acquired);
}

#[test]
fn release_all_frees_names() {
    let mut reg = UserLockRegistry::new();
    assert_eq!(reg.get_lock(1, "a"), GetLockResult::Acquired);
    assert_eq!(reg.get_lock(1, "b"), GetLockResult::Acquired);
    reg.release_all(1);
    assert_eq!(reg.get_lock(2, "a"), GetLockResult::Acquired);
    assert_eq!(reg.get_lock(2, "b"), GetLockResult::Acquired);
}

#[test]
fn name_longer_than_64_bytes_is_rejected() {
    let mut reg = UserLockRegistry::new();
    let long = "x".repeat(65);
    assert_eq!(reg.get_lock(1, &long), GetLockResult::NameTooLong);
    assert_eq!(reg.release_lock(1, &long), ReleaseLockResult::NameTooLong);
}

#[test]
fn release_all_keeps_other_sessions() {
    let mut reg = UserLockRegistry::new();
    reg.get_lock(1, "a");
    reg.get_lock(2, "b");
    reg.release_all(1);
    assert_eq!(reg.get_lock(3, "b"), GetLockResult::Timeout);
    assert_eq!(reg.get_lock(3, &"é".repeat(32)), GetLockResult::Acquired);
    assert_eq!(reg.get_lock(3, &"é".repeat(33)), GetLockResult::NameTooLong);
}

#[test]
fn program_store_keys_and_errors() {
    let cat = MessageCatalog::new();
    assert_eq!(program_key("s", "p"), "s.p");
    assert_eq!(trigger_key("s", "t", "n"), "s.t.n");
    let mut store = ProgramStore::new();
    let p = ProcedureMeta { schema: "s".into(), name: "p".into(), body: vec![] };
    assert_eq!(store.create_procedure(&cat, p.clone()), Ok(()));
    assert_eq!(store.create_procedure(&cat, p), Err("programs.procedure_exists".to_string()));
    assert!(store.get_procedure("s", "p").is_some());
    assert_eq!(store.drop_procedure(&cat, "s", "p"), Ok(()));
    assert_eq!(store.drop_procedure(&cat, "s", "p"), Err("programs.procedure_not_found".to_string()));
    let t = TriggerMeta {
        schema: "s".into(),
        table: "t".into(),
        name: "Tr".into(),
        timing: TriggerTiming::After,
        event: TriggerEvent::Delete,
        body: vec![],
    };
    assert_eq!(store.create_trigger(&cat, t), Ok(()));
    let mut catalog = Catalog::new();
    store.seed_catalog(&mut catalog);
    assert!(catalog.get_trigger("s", "Tr").is_some());
    assert_eq!(store.drop_trigger_by_name(&cat, "s", "tr"), Ok(()));
    assert_eq!(store.drop_trigger_by_name(&cat, "s", "tr"), Err("programs.trigger_not_found".to_string()));
}

#[test]
fn process_list_rows() {
    let mut reg = ConnectionRegistry::new();
    reg.register(5, "bob", "h", "rusql", 0);
    reg.register(2, "amy", "h", "rusql", 0);
    reg.set_command(5, "Query", Some("SELECT 1"), 1_000_000_000);
    let rows = reg.snapshot(4_500_000_000);
    assert_eq!(rows.iter().map(|r| r.id).collect::<Vec<_>>(), vec![2, 5]);
    assert_eq!(rows[1].command, "Query");
    assert_eq!(rows[1].time, 3);
    assert_eq!(rows[1].info.as_deref(), Some("SELECT 1"));
    assert_eq!(rows[0].command, "Sleep");
    reg.set_sleep(5, 5_000_000_000);
    reg.update_session(5, "bob", "h2", "shop");
    let cur = reg.current(5, 5_000_000_000).unwrap();
    assert_eq!((cur.command.as_str(), cur.db.as_str(), cur.time), ("Sleep", "shop", 0));
    reg.unregister(5);
    assert!(reg.current(5, 0).is_none());
    assert_eq!(reg.snapshot(0).len(), 1);
}

#[test]
fn parse_create_user_ddl() {
    let ddl = parse_account_ddl(
        "CREATE USER 'app'@'%' IDENTIFIED WITH mysql_native_password BY 'secret'",
    )
    .unwrap();
    match ddl {
        AccountDdl::CreateUser {
            accounts,
            auth_plugin,
            password,
            ..
        } => {
            assert_eq!(accounts.len(), 1);
            assert_eq!(auth_plugin, AUTH_PLUGIN_NATIVE);
            assert_eq!(password, "secret");
        }
        _ => panic!("expected create user"),
    }
}

#[test]
fn create_user_defaults_and_lists() {
    let ddl = parse_account_ddl(
        "  create user if not exists 'a'@localhost , \"b\" identified by 'p\\'w';;  ",
    );
    // `IF NOT EXISTS` is only recognized directly after the keyword, so this is refused.
    assert!(ddl.is_none());
    let ddl = parse_account_ddl("create user 'a'@localhost , \"b\" identified by 'p\\'w';;").unwrap();
    match ddl {
        AccountDdl::CreateUser { accounts, auth_plugin, password, if_not_exists } => {
            assert_eq!(accounts.len(), 2);
            assert_eq!(accounts[0].user, "a");
            assert_eq!(accounts[0].host, "localhost");
            assert_eq!(accounts[1].user, "b");
            assert_eq!(accounts[1].host, "%");
            assert_eq!(auth_plugin, AUTH_PLUGIN_CACHING_SHA2);
            assert_eq!(password, "p'w");
            assert!(!if_not_exists);
        }
        _ => panic!("expected create user"),
    }
    let ddl = parse_account_ddl("CREATE USERIF NOT EXISTS 'x' IDENTIFIED WITH sha256_password BY 'y'")
        .unwrap();
    match ddl {
        AccountDdl::CreateUser { accounts, auth_plugin, password, if_not_exists } => {
            assert_eq!(accounts.len(), 1);
            assert_eq!(auth_plugin, "sha256_password");
            assert_eq!(password, "y");
            assert!(if_not_exists);
        }
        _ => panic!("expected create user"),
    }
}

#[test]
fn drop_user_ddl() {
    let ddl = parse_account_ddl("DROP USER 'a'@'h', 'b';").unwrap();
    match ddl {
        AccountDdl::DropUser { accounts, if_exists } => {
            assert_eq!(accounts.len(), 2);
            assert_eq!(accounts[0].host, "h");
            assert_eq!(accounts[1].host, "%");
            assert!(!if_exists);
        }
        _ => panic!("expected drop user"),
    }
    assert!(parse_account_ddl("DROP USER 'a' extra").is_none());
    assert!(parse_account_ddl("DROP USER").is_none());
    assert!(parse_account_ddl("CREATE USER 'a'").is_none());
    assert!(parse_account_ddl("CREATE USER 'a' IDENTIFIED BY secret").is_none());
    assert!(parse_account_ddl("SELECT 1").is_none());
}
