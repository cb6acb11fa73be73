use rusql::catalog::{Catalog, EventMeta};
use rusql::messages::MessageCatalog;
use rusql::program_ddl::{apply_program_ddl, ProgramDdl};
use rusql::programs::{ProcedureMeta, ProgramStore, TriggerEvent, TriggerMeta, TriggerTiming};
use rusql::results::{ExecError, QueryResult};

fn messages() -> MessageCatalog {
    let mut cat = MessageCatalog::new();
    cat.insert("programs.procedure_exists", "PROCEDURE %{name} already exists");
    cat.insert("programs.procedure_not_found", "PROCEDURE %{name} does not exist");
    cat.insert("programs.trigger_not_found", "Trigger does not exist: %{name}");
    cat.insert("programs.event_exists", "Event '%{name}' already exists");
    cat.insert("programs.event_not_found", "Unknown event '%{name}'");
    cat
}

fn event(name: &str) -> EventMeta {
    EventMeta {
        schema: "rusql".into(),
        name: name.into(),
        schedule_type: "AT".into(),
        execute_at: Some("2030-01-01 00:00:00".into()),
        interval_value: None,
        interval_field: None,
        status: "ENABLED".into(),
        body: "SELECT 1".into(),
        last_executed: None,
        starts: None,
        ends: None,
        definer: None,
        on_completion: None,
        comment: None,
    }
}

fn is_done(r: &Result<QueryResult, ExecError>) -> bool {
    matches!(r, Ok(QueryResult::Affected { rows_affected: 0 }))
}

fn alter(name: &str, rename: Option<(&str, &str)>, status: Option<&str>) -> ProgramDdl {
    ProgramDdl::AlterEvent {
        schema: "rusql".into(),
        name: name.into(),
        schedule_type: None,
        execute_at: None,
        interval_value: None,
        interval_field: None,
        status: status.map(|s| s.to_string()),
        rename_schema: rename.map(|r| r.0.to_string()),
        rename_name: rename.map(|r| r.1.to_string()),
        body: None,
        starts: None,
        ends: None,
    }
}

#[test]
fn procedures_create_twice_and_drop() {
    let cat = messages();
    let mut catalog = Catalog::new();
    let mut store = ProgramStore::new();
    let p = || ProcedureMeta { schema: "rusql".into(), name: "p".into(), body: vec!["SELECT 1".into()] };
    assert!(is_done(&apply_program_ddl(&cat, &mut catalog, &mut store, ProgramDdl::CreateProcedure(p()))));
    assert!(catalog.get_procedure("rusql", "p").is_some());
    match apply_program_ddl(&cat, &mut catalog, &mut store, ProgramDdl::CreateProcedure(p())) {
        Err(ExecError::Message(m)) => assert_eq!(m, "PROCEDURE p already exists"),
        other => panic!("unexpected {other:?}"),
    }
    let drop = |if_exists| ProgramDdl::DropProcedure { schema: "rusql".into(), name: "p".into(), if_exists };
    assert!(is_done(&apply_program_ddl(&cat, &mut catalog, &mut store, drop(false))));
    assert!(catalog.get_procedure("rusql", "p").is_none());
    assert!(store.get_procedure("rusql", "p").is_none());
    assert!(is_done(&apply_program_ddl(&cat, &mut catalog, &mut store, drop(true))));
    match apply_program_ddl(&cat, &mut catalog, &mut store, drop(false)) {
        Err(ExecError::Message(m)) => assert_eq!(m, "PROCEDURE p does not exist"),
        other => panic!("unexpected {other:?}"),
    }
}

#[test]
fn triggers_drop_any_case() {
    let cat = messages();
    let mut catalog = Catalog::new();
    let mut store = ProgramStore::new();
    let t = TriggerMeta {
        schema: "rusql".into(),
        table: "t".into(),
        name: "trg".into(),
        timing: TriggerTiming::Before,
        event: TriggerEvent::Insert,
        body: vec!["SET NEW.a = 1".into()],
    };
    assert!(is_done(&apply_program_ddl(&cat, &mut catalog, &mut store, ProgramDdl::CreateTrigger(t))));
    assert!(catalog.get_trigger("rusql", "trg").is_some());
    let drop = ProgramDdl::DropTrigger { schema: "rusql".into(), name: "TRG".into(), if_exists: false };
    assert!(is_done(&apply_program_ddl(&cat, &mut catalog, &mut store, drop)));
    let drop = ProgramDdl::DropTrigger { schema: "rusql".into(), name: "trg".into(), if_exists: false };
    match apply_program_ddl(&cat, &mut catalog, &mut store, drop) {
        Err(ExecError::Message(m)) => assert_eq!(m, "Trigger does not exist: trg"),
        other => panic!("unexpected {other:?}"),
    }
}

#[test]
fn events_create_alter_rename_and_drop() {
    let cat = messages();
    let mut catalog = Catalog::new();
    let mut store = ProgramStore::new();
    let create = |name: &str, ine| ProgramDdl::CreateEvent { meta: event(name), if_not_exists: ine };
    assert!(is_done(&apply_program_ddl(&cat, &mut catalog, &mut store, create("e1", false))));
    assert!(is_done(&apply_program_ddl(&cat, &mut catalog, &mut store, create("E1", true))));
    match apply_program_ddl(&cat, &mut catalog, &mut store, create("E1", false)) {
        Err(ExecError::Mysql { code, message }) => {
            assert_eq!(code, 1537);
            assert_eq!(message, "Event 'E1' already exists");
        }
        other => panic!("unexpected {other:?}"),
    }
    assert!(is_done(&apply_program_ddl(&cat, &mut catalog, &mut store, create("e2", false))));
    assert!(is_done(&apply_program_ddl(&cat, &mut catalog, &mut store, alter("e1", None, Some("DISABLED")))));
    assert_eq!(catalog.get_event("rusql", "e1").unwrap().status, "DISABLED");
    match apply_program_ddl(&cat, &mut catalog, &mut store, alter("e1", Some(("rusql", "e2")), None)) {
        Err(ExecError::Mysql { code, .. }) => assert_eq!(code, 1537),
        other => panic!("unexpected {other:?}"),
    }
    assert!(is_done(&apply_program_ddl(&cat, &mut catalog, &mut store, alter("e1", Some(("rusql", "e3")), None))));
    assert!(catalog.get_event("rusql", "e1").is_none());
    let e3 = catalog.get_event("rusql", "e3").unwrap();
    assert_eq!(e3.status, "DISABLED");
    assert_eq!(e3.execute_at.as_deref(), Some("2030-01-01 00:00:00"));
    match apply_program_ddl(&cat, &mut catalog, &mut store, alter("nope", None, None)) {
        Err(ExecError::Mysql { code, message }) => {
            assert_eq!(code, 1539);
            assert_eq!(message, "Unknown event 'nope'");
        }
        other => panic!("unexpected {other:?}"),
    }
    let drop = ProgramDdl::DropEvent { schema: "rusql".into(), name: "E3".into(), if_exists: false };
    assert!(is_done(&apply_program_ddl(&cat, &mut catalog, &mut store, drop)));
    assert!(catalog.get_event("rusql", "e3").is_none());
    let drop = ProgramDdl::DropEvent { schema: "rusql".into(), name: "e3".into(), if_exists: true };
    assert!(is_done(&apply_program_ddl(&cat, &mut catalog, &mut store, drop)));
}
