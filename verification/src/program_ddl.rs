//! `CREATE` / `DROP` of stored procedures, functions and triggers, and `CREATE` / `DROP` /
//! `ALTER EVENT`: the bookkeeping in the program store and the session catalog.
use vstd::prelude::*;
use crate::catalog::{
    function_view, named_in, procedure_view, texts, Catalog, EventMeta,
};
use crate::messages::{event_exists, event_not_found, MessageCatalog};
use crate::programs::{
    named_message, program_key_spec, trigger_key_spec, FunctionMeta, ProcedureMeta, ProgramStore,
    TriggerMeta,
};
use crate::results::{ExecError, QueryResult};
use crate::text::{eq_ignore_ascii_case, eq_ignore_case_seq, owned};

verus! {

/// A stored-program statement, as far as the bookkeeping reads it.
#[derive(Debug)]
pub enum ProgramDdl {
    CreateProcedure(ProcedureMeta),
    CreateFunction(FunctionMeta),
    DropProcedure { schema: String, name: String, if_exists: bool },
    DropFunction { schema: String, name: String, if_exists: bool },
    CreateTrigger(TriggerMeta),
    DropTrigger { schema: String, name: String, if_exists: bool },
    CreateEvent { meta: EventMeta, if_not_exists: bool },
    DropEvent { schema: String, name: String, if_exists: bool },
    AlterEvent {
        schema: String,
        name: String,
        schedule_type: Option<String>,
        execute_at: Option<String>,
        interval_value: Option<String>,
        interval_field: Option<String>,
        status: Option<String>,
        rename_schema: Option<String>,
        rename_name: Option<String>,
        body: Option<String>,
        starts: Option<String>,
        ends: Option<String>,
    },
}

/// Which part of the catalog a statement changes.
pub enum CatalogPart {
    Procedures,
    Functions,
    Triggers,
    Events,
    Nothing,
}

/// `b` is `a` but for (at most) the named part.
pub open spec fn catalog_same_except(a: Catalog, b: Catalog, part: CatalogPart) -> bool {
    &&& a.tables_view() == b.tables_view()
    &&& a.views_view() == b.views_view()
    &&& (!(part is Procedures) ==> a.procedures_view() == b.procedures_view())
    &&& (!(part is Functions) ==> a.functions_view() == b.functions_view())
    &&& (!(part is Triggers) ==> a.triggers_view() == b.triggers_view())
    &&& (!(part is Events) ==> a.events_view() == b.events_view())
}

/// The texts of an optional string.
pub open spec fn opt_text(o: Option<String>) -> Option<Seq<char>> {
    match o {
        Some(s) => Some(s@),
        None => None,
    }
}

/// Whether two events hold the same texts.
pub open spec fn same_event(a: EventMeta, b: EventMeta) -> bool {
    &&& a.schema@ == b.schema@
    &&& a.name@ == b.name@
    &&& a.schedule_type@ == b.schedule_type@
    &&& opt_text(a.execute_at) == opt_text(b.execute_at)
    &&& opt_text(a.interval_value) == opt_text(b.interval_value)
    &&& opt_text(a.interval_field) == opt_text(b.interval_field)
    &&& a.status@ == b.status@
    &&& a.body@ == b.body@
    &&& opt_text(a.last_executed) == opt_text(b.last_executed)
    &&& opt_text(a.starts) == opt_text(b.starts)
    &&& opt_text(a.ends) == opt_text(b.ends)
    &&& opt_text(a.definer) == opt_text(b.definer)
    &&& opt_text(a.on_completion) == opt_text(b.on_completion)
    &&& opt_text(a.comment) == opt_text(b.comment)
}

/// The texts of a trigger: schema, table, name, timing, event and body.
pub open spec fn same_trigger(a: TriggerMeta, b: TriggerMeta) -> bool {
    &&& a.schema@ == b.schema@
    &&& a.table@ == b.table@
    &&& a.name@ == b.name@
    &&& a.timing == b.timing
    &&& a.event == b.event
    &&& texts(a.body@) == texts(b.body@)
}

/// `m` is `e` altered by `ALTER EVENT`: a new schedule replaces the schedule fields, and each
/// given status, body, start or end replaces its field; schema and name are `schema` and
/// `name`.
pub open spec fn altered_event(
    m: EventMeta,
    e: EventMeta,
    schema: Seq<char>,
    name: Seq<char>,
    schedule_type: Option<String>,
    execute_at: Option<String>,
    interval_value: Option<String>,
    interval_field: Option<String>,
    status: Option<String>,
    body: Option<String>,
    starts: Option<String>,
    ends: Option<String>,
) -> bool {
    &&& m.schema@ == schema
    &&& m.name@ == name
    &&& match schedule_type {
        Some(st) => m.schedule_type@ == st@ && opt_text(m.execute_at) == opt_text(execute_at) && opt_text(
            m.interval_value,
        ) == opt_text(interval_value) && opt_text(m.interval_field) == opt_text(interval_field),
        None => m.schedule_type@ == e.schedule_type@ && opt_text(m.execute_at) == opt_text(e.execute_at)
            && opt_text(m.interval_value) == opt_text(e.interval_value) && opt_text(m.interval_field)
            == opt_text(e.interval_field),
    }
    &&& m.status@ == (match status {
        Some(s) => s@,
        None => e.status@,
    })
    &&& m.body@ == (match body {
        Some(b) => b@,
        None => e.body@,
    })
    &&& opt_text(m.starts) == (match starts {
        Some(s) => Some(s@),
        None => opt_text(e.starts),
    })
    &&& opt_text(m.ends) == (match ends {
        Some(s) => Some(s@),
        None => opt_text(e.ends),
    })
    &&& opt_text(m.last_executed) == opt_text(e.last_executed)
    &&& opt_text(m.definer) == opt_text(e.definer)
    &&& opt_text(m.on_completion) == opt_text(e.on_completion)
    &&& opt_text(m.comment) == opt_text(e.comment)
}

/// Whether an event of `events` is `name` (any ASCII case) in `schema`.
pub open spec fn has_event(events: Map<Seq<char>, EventMeta>, schema: Seq<char>, name: Seq<char>) -> bool {
    exists|k: Seq<char>| #[trigger] events.contains_key(k) && named_in(events[k].schema@, events[k].name@, schema, name)
}

/// `after` is `before` with one event named `name` in `schema` removed, when there is one.
pub open spec fn event_dropped(
    before: Map<Seq<char>, EventMeta>,
    after: Map<Seq<char>, EventMeta>,
    schema: Seq<char>,
    name: Seq<char>,
) -> bool {
    &&& !has_event(before, schema, name) ==> after == before
    &&& has_event(before, schema, name) ==> exists|k: Seq<char>| #[trigger] before.contains_key(k) && named_in(
        before[k].schema@,
        before[k].name@,
        schema,
        name,
    ) && after == before.remove(k)
}

/// `after` is `before` with one function named `name` in `schema` removed, when there is one.
pub open spec fn function_dropped(
    before: Map<Seq<char>, FunctionMeta>,
    after: Map<Seq<char>, FunctionMeta>,
    schema: Seq<char>,
    name: Seq<char>,
) -> bool {
    &&& (forall|k: Seq<char>| #[trigger] before.contains_key(k) ==> !named_in(before[k].schema@, before[k].name@, schema, name))
        ==> after == before
    &&& (exists|k: Seq<char>| #[trigger] before.contains_key(k) && named_in(before[k].schema@, before[k].name@, schema, name))
        ==> exists|k: Seq<char>| #[trigger] before.contains_key(k) && named_in(
        before[k].schema@,
        before[k].name@,
        schema,
        name,
    ) && after == before.remove(k)
}

/// Whether the store holds a trigger of `schema` named `name` (any ASCII case).
pub open spec fn store_has_trigger(triggers: Map<Seq<char>, TriggerMeta>, schema: Seq<char>, name: Seq<char>) -> bool {
    exists|k: Seq<char>| #[trigger] triggers.contains_key(k) && triggers[k].schema@ == schema && eq_ignore_case_seq(
        triggers[k].name@,
        name,
    )
}

/// The success answer of a statement.
pub open spec fn done(r: Result<QueryResult, ExecError>) -> bool {
    r matches Ok(QueryResult::Affected { rows_affected }) && rows_affected == 0
}

/// A MySQL error with `code` and the catalog message `key` about `name`.
pub open spec fn mysql_error(r: Result<QueryResult, ExecError>, cat: MessageCatalog, code: u16, key: Seq<char>, name: Seq<char>) -> bool {
    r matches Err(ExecError::Mysql { code: c, message }) && c == code && message@ == named_message(cat@, key, name)
}

/// A plain error with the catalog message `key` about `name`.
pub open spec fn message_error(r: Result<QueryResult, ExecError>, cat: MessageCatalog, key: Seq<char>, name: Seq<char>) -> bool {
    r matches Err(ExecError::Message(m)) && m@ == named_message(cat@, key, name)
}

fn copy_opt(s: &Option<String>) -> (r: Option<String>)
    ensures
        opt_text(r) == opt_text(*s),
{
    match s {
        Some(t) => Some(owned(t.as_str())),
        None => None,
    }
}

fn copy_strings(v: &Vec<String>) -> (r: Vec<String>)
    ensures
        texts(r@) == texts(v@),
{
    let mut out: Vec<String> = Vec::new();
    let mut i: usize = 0;
    while i < v.len()
        invariant
            i <= v@.len(),
            texts(out@) == texts(v@).take(i as int),
        decreases v@.len() - i,
    {
        let c = owned(v[i].as_str());
        proof {
            crate::results::lemma_texts_push(out@, c);
            assert(texts(v@).take(i + 1) =~= texts(v@).take(i as int).push(c@));
        }
        out.push(c);
        i = i + 1;
    }
    proof {
        assert(texts(v@).take(i as int) =~= texts(v@));
    }
    out
}

fn copy_procedure(p: &ProcedureMeta) -> (r: ProcedureMeta)
    ensures
        procedure_view(r) == procedure_view(*p),
{
    ProcedureMeta { schema: owned(p.schema.as_str()), name: owned(p.name.as_str()), body: copy_strings(&p.body) }
}

fn copy_function(f: &FunctionMeta) -> (r: FunctionMeta)
    ensures
        function_view(r) == function_view(*f),
{
    FunctionMeta {
        schema: owned(f.schema.as_str()),
        name: owned(f.name.as_str()),
        return_type: owned(f.return_type.as_str()),
        return_expr: owned(f.return_expr.as_str()),
    }
}

fn copy_trigger(t: &TriggerMeta) -> (r: TriggerMeta)
    ensures
        same_trigger(r, *t),
{
    TriggerMeta {
        schema: owned(t.schema.as_str()),
        table: owned(t.table.as_str()),
        name: owned(t.name.as_str()),
        timing: t.timing,
        event: t.event,
        body: copy_strings(&t.body),
    }
}

fn copy_event(e: &EventMeta) -> (r: EventMeta)
    ensures
        same_event(r, *e),
{
    EventMeta {
        schema: owned(e.schema.as_str()),
        name: owned(e.name.as_str()),
        schedule_type: owned(e.schedule_type.as_str()),
        execute_at: copy_opt(&e.execute_at),
        interval_value: copy_opt(&e.interval_value),
        interval_field: copy_opt(&e.interval_field),
        status: owned(e.status.as_str()),
        body: owned(e.body.as_str()),
        last_executed: copy_opt(&e.last_executed),
        starts: copy_opt(&e.starts),
        ends: copy_opt(&e.ends),
        definer: copy_opt(&e.definer),
        on_completion: copy_opt(&e.on_completion),
        comment: copy_opt(&e.comment),
    }
}

fn done_result() -> (r: Result<QueryResult, ExecError>)
    ensures
        done(r),
{
    Ok(QueryResult::Affected { rows_affected: 0 })
}


/// The store is unchanged.
pub open spec fn store_same(a: ProgramStore, b: ProgramStore) -> bool {
    a.procedures@ == b.procedures@ && a.functions@ == b.functions@ && a.triggers@ == b.triggers@
}

/// What `CREATE PROCEDURE` does: an error when the store has the key already; else the
/// procedure is kept in the store and in the catalog.
pub open spec fn procedure_created(
    cat: MessageCatalog,
    c0: Catalog,
    c1: Catalog,
    s0: ProgramStore,
    s1: ProgramStore,
    meta: ProcedureMeta,
    r: Result<QueryResult, ExecError>,
) -> bool {
    let key = program_key_spec(meta.schema@, meta.name@);
    &&& s1.functions@ == s0.functions@ && s1.triggers@ == s0.triggers@
    &&& if s0.procedures@.contains_key(key) {
        &&& s1.procedures@ == s0.procedures@
        &&& catalog_same_except(c0, c1, CatalogPart::Nothing)
        &&& message_error(r, cat, "programs.procedure_exists"@, meta.name@)
    } else {
        &&& exists|p: ProcedureMeta| procedure_view(p) == procedure_view(meta) && #[trigger] s1.procedures@
            == s0.procedures@.insert(key, p)
        &&& catalog_same_except(c0, c1, CatalogPart::Procedures)
        &&& c1.procedures_view() == c0.procedures_view().insert(key, meta)
        &&& done(r)
    }
}

/// What `CREATE FUNCTION` does: an error when the store has the key already; else the
/// function is kept in the store and in the catalog.
pub open spec fn function_created(
    cat: MessageCatalog,
    c0: Catalog,
    c1: Catalog,
    s0: ProgramStore,
    s1: ProgramStore,
    meta: FunctionMeta,
    r: Result<QueryResult, ExecError>,
) -> bool {
    let key = program_key_spec(meta.schema@, meta.name@);
    &&& s1.procedures@ == s0.procedures@ && s1.triggers@ == s0.triggers@
    &&& if s0.functions@.contains_key(key) {
        &&& s1.functions@ == s0.functions@
        &&& catalog_same_except(c0, c1, CatalogPart::Nothing)
        &&& message_error(r, cat, "programs.function_exists"@, meta.name@)
    } else {
        &&& exists|f: FunctionMeta| function_view(f) == function_view(meta) && #[trigger] s1.functions@
            == s0.functions@.insert(key, f)
        &&& catalog_same_except(c0, c1, CatalogPart::Functions)
        &&& c1.functions_view() == c0.functions_view().insert(key, meta)
        &&& done(r)
    }
}

/// What `CREATE TRIGGER` does: an error when the store has the trigger's key already; else
/// the trigger is kept in the store and in the catalog.
pub open spec fn trigger_created(
    cat: MessageCatalog,
    c0: Catalog,
    c1: Catalog,
    s0: ProgramStore,
    s1: ProgramStore,
    meta: TriggerMeta,
    r: Result<QueryResult, ExecError>,
) -> bool {
    let key = trigger_key_spec(meta.schema@, meta.table@, meta.name@);
    &&& s1.procedures@ == s0.procedures@ && s1.functions@ == s0.functions@
    &&& if s0.triggers@.contains_key(key) {
        &&& s1.triggers@ == s0.triggers@
        &&& catalog_same_except(c0, c1, CatalogPart::Nothing)
        &&& message_error(r, cat, "programs.trigger_exists"@, meta.name@)
    } else {
        &&& exists|t: TriggerMeta| same_trigger(t, meta) && #[trigger] s1.triggers@ == s0.triggers@.insert(key, t)
        &&& catalog_same_except(c0, c1, CatalogPart::Triggers)
        &&& c1.triggers_view() == c0.triggers_view().insert(program_key_spec(meta.schema@, meta.name@), meta)
        &&& done(r)
    }
}

fn create_procedure_ddl(cat: &MessageCatalog, catalog: &mut Catalog, store: &mut ProgramStore, meta: ProcedureMeta) -> (r: Result<QueryResult, ExecError>)
    ensures
        procedure_created(*cat, *old(catalog), *final(catalog), *old(store), *final(store), meta, r),
{
    let copy = copy_procedure(&meta);
    match store.create_procedure(cat, copy) {
        Ok(()) => {
            catalog.create_procedure(meta);
            done_result()
        },
        Err(m) => Err(ExecError::Message(m)),
    }
}

fn create_function_ddl(cat: &MessageCatalog, catalog: &mut Catalog, store: &mut ProgramStore, meta: FunctionMeta) -> (r: Result<QueryResult, ExecError>)
    ensures
        function_created(*cat, *old(catalog), *final(catalog), *old(store), *final(store), meta, r),
{
    let copy = copy_function(&meta);
    match store.create_function(cat, copy) {
        Ok(()) => {
            catalog.create_function(meta);
            done_result()
        },
        Err(m) => Err(ExecError::Message(m)),
    }
}

fn create_trigger_ddl(cat: &MessageCatalog, catalog: &mut Catalog, store: &mut ProgramStore, meta: TriggerMeta) -> (r: Result<QueryResult, ExecError>)
    ensures
        trigger_created(*cat, *old(catalog), *final(catalog), *old(store), *final(store), meta, r),
{
    let copy = copy_trigger(&meta);
    match store.create_trigger(cat, copy) {
        Ok(()) => {
            catalog.create_trigger(meta);
            done_result()
        },
        Err(m) => Err(ExecError::Message(m)),
    }
}

/// What `DROP PROCEDURE` does: the key leaves the store and the catalog; when the store did
/// not have it, nothing changes and the answer is an error unless `IF EXISTS` was given.
pub open spec fn procedure_dropped(
    cat: MessageCatalog,
    c0: Catalog,
    c1: Catalog,
    s0: ProgramStore,
    s1: ProgramStore,
    schema: Seq<char>,
    name: Seq<char>,
    if_exists: bool,
    r: Result<QueryResult, ExecError>,
) -> bool {
    let key = program_key_spec(schema, name);
    &&& s1.functions@ == s0.functions@ && s1.triggers@ == s0.triggers@
    &&& s1.procedures@ == s0.procedures@.remove(key)
    &&& if s0.procedures@.contains_key(key) {
        &&& catalog_same_except(c0, c1, CatalogPart::Procedures)
        &&& c1.procedures_view() == c0.procedures_view().remove(key)
        &&& done(r)
    } else {
        &&& catalog_same_except(c0, c1, CatalogPart::Nothing)
        &&& if if_exists { done(r) } else { message_error(r, cat, "programs.procedure_not_found"@, name) }
    }
}

/// What `DROP FUNCTION` does: the key leaves the store, and one function so named (any ASCII
/// case) leaves the catalog; when the store did not have the key, nothing changes and the
/// answer is an error unless `IF EXISTS` was given.
pub open spec fn function_dropped_ddl(
    cat: MessageCatalog,
    c0: Catalog,
    c1: Catalog,
    s0: ProgramStore,
    s1: ProgramStore,
    schema: Seq<char>,
    name: Seq<char>,
    if_exists: bool,
    r: Result<QueryResult, ExecError>,
) -> bool {
    let key = program_key_spec(schema, name);
    &&& s1.procedures@ == s0.procedures@ && s1.triggers@ == s0.triggers@
    &&& s1.functions@ == s0.functions@.remove(key)
    &&& if s0.functions@.contains_key(key) {
        &&& catalog_same_except(c0, c1, CatalogPart::Functions)
        &&& function_dropped(c0.functions_view(), c1.functions_view(), schema, name)
        &&& done(r)
    } else {
        &&& catalog_same_except(c0, c1, CatalogPart::Nothing)
        &&& if if_exists { done(r) } else { message_error(r, cat, "programs.function_not_found"@, name) }
    }
}

/// What `DROP TRIGGER` does: one trigger of `schema` so named (any ASCII case) leaves the
/// store and the key `schema.name` leaves the catalog; when the store has none, nothing
/// changes and the answer is an error unless `IF EXISTS` was given.
pub open spec fn trigger_dropped(
    cat: MessageCatalog,
    c0: Catalog,
    c1: Catalog,
    s0: ProgramStore,
    s1: ProgramStore,
    schema: Seq<char>,
    name: Seq<char>,
    if_exists: bool,
    r: Result<QueryResult, ExecError>,
) -> bool {
    &&& s1.procedures@ == s0.procedures@ && s1.functions@ == s0.functions@
    &&& if store_has_trigger(s0.triggers@, schema, name) {
        &&& exists|k: Seq<char>| #[trigger] s0.triggers@.contains_key(k) && s0.triggers@[k].schema@ == schema
            && eq_ignore_case_seq(s0.triggers@[k].name@, name) && s1.triggers@ == s0.triggers@.remove(k)
        &&& catalog_same_except(c0, c1, CatalogPart::Triggers)
        &&& c1.triggers_view() == c0.triggers_view().remove(program_key_spec(schema, name))
        &&& done(r)
    } else {
        &&& s1.triggers@ == s0.triggers@
        &&& catalog_same_except(c0, c1, CatalogPart::Nothing)
        &&& if if_exists { done(r) } else { message_error(r, cat, "programs.trigger_not_found"@, name) }
    }
}

fn drop_procedure_ddl(cat: &MessageCatalog, catalog: &mut Catalog, store: &mut ProgramStore, schema: &str, name: &str, if_exists: bool) -> (r: Result<QueryResult, ExecError>)
    ensures
        procedure_dropped(*cat, *old(catalog), *final(catalog), *old(store), *final(store), schema@, name@, if_exists, r),
{
    match store.drop_procedure(cat, schema, name) {
        Ok(()) => {
            catalog.drop_procedure(schema, name);
            done_result()
        },
        Err(m) => if if_exists {
            done_result()
        } else {
            Err(ExecError::Message(m))
        },
    }
}

fn drop_function_ddl(cat: &MessageCatalog, catalog: &mut Catalog, store: &mut ProgramStore, schema: &str, name: &str, if_exists: bool) -> (r: Result<QueryResult, ExecError>)
    ensures
        function_dropped_ddl(*cat, *old(catalog), *final(catalog), *old(store), *final(store), schema@, name@, if_exists, r),
{
    match store.drop_function(cat, schema, name) {
        Ok(()) => {
            catalog.drop_function(schema, name);
            done_result()
        },
        Err(m) => if if_exists {
            done_result()
        } else {
            Err(ExecError::Message(m))
        },
    }
}

fn drop_trigger_ddl(cat: &MessageCatalog, catalog: &mut Catalog, store: &mut ProgramStore, schema: &str, name: &str, if_exists: bool) -> (r: Result<QueryResult, ExecError>)
    ensures
        trigger_dropped(*cat, *old(catalog), *final(catalog), *old(store), *final(store), schema@, name@, if_exists, r),
{
    match store.drop_trigger_by_name(cat, schema, name) {
        Ok(()) => {
            catalog.drop_trigger(schema, name);
            done_result()
        },
        Err(m) => if if_exists {
            done_result()
        } else {
            Err(ExecError::Message(m))
        },
    }
}

/// What `CREATE EVENT` does: when an event so named (any ASCII case) exists, nothing changes
/// and the answer is error 1537 unless `IF NOT EXISTS` was given; else the event is kept under
/// `schema.name`.
pub open spec fn event_created(
    cat: MessageCatalog,
    c0: Catalog,
    c1: Catalog,
    meta: EventMeta,
    if_not_exists: bool,
    r: Result<QueryResult, ExecError>,
) -> bool {
    if has_event(c0.events_view(), meta.schema@, meta.name@) {
        &&& catalog_same_except(c0, c1, CatalogPart::Nothing)
        &&& if if_not_exists { done(r) } else { mysql_error(r, cat, 1537, "programs.event_exists"@, meta.name@) }
    } else {
        &&& catalog_same_except(c0, c1, CatalogPart::Events)
        &&& c1.events_view() == c0.events_view().insert(program_key_spec(meta.schema@, meta.name@), meta)
        &&& done(r)
    }
}

/// What `DROP EVENT` does: one event so named (any ASCII case) leaves the catalog; when there
/// is none, nothing changes and the answer is error 1539 unless `IF EXISTS` was given.
pub open spec fn event_dropped_ddl(
    cat: MessageCatalog,
    c0: Catalog,
    c1: Catalog,
    schema: Seq<char>,
    name: Seq<char>,
    if_exists: bool,
    r: Result<QueryResult, ExecError>,
) -> bool {
    if has_event(c0.events_view(), schema, name) {
        &&& catalog_same_except(c0, c1, CatalogPart::Events)
        &&& event_dropped(c0.events_view(), c1.events_view(), schema, name)
        &&& done(r)
    } else {
        &&& catalog_same_except(c0, c1, CatalogPart::Nothing)
        &&& if if_exists { done(r) } else { mysql_error(r, cat, 1539, "programs.event_not_found"@, name) }
    }
}

fn create_event_ddl(cat: &MessageCatalog, catalog: &mut Catalog, meta: EventMeta, if_not_exists: bool) -> (r: Result<QueryResult, ExecError>)
    ensures
        event_created(*cat, *old(catalog), *final(catalog), meta, if_not_exists, r),
{
    let found = catalog.get_event(meta.schema.as_str(), meta.name.as_str()).is_some();
    if found {
        if if_not_exists {
            return done_result();
        }
        return Err(ExecError::Mysql { code: 1537, message: event_exists(cat, meta.name.as_str()) });
    }
    catalog.create_event(meta);
    done_result()
}

fn drop_event_ddl(cat: &MessageCatalog, catalog: &mut Catalog, schema: &str, name: &str, if_exists: bool) -> (r: Result<QueryResult, ExecError>)
    ensures
        event_dropped_ddl(*cat, *old(catalog), *final(catalog), schema@, name@, if_exists, r),
{
    let found = catalog.get_event(schema, name).is_some();
    if !found {
        if if_exists {
            return done_result();
        }
        return Err(ExecError::Mysql { code: 1539, message: event_not_found(cat, name) });
    }
    catalog.drop_event(schema, name);
    done_result()
}

/// What `ALTER EVENT` does to the event `e` it read (one named `name` in `schema`, any ASCII
/// case): with a rename to both a new schema and name, an error 1537 when another event has
/// the new name; else one event so named is replaced by the altered one under its new key.
/// Without a rename, the altered event is kept under its own key.
pub open spec fn event_altered_from(
    cat: MessageCatalog,
    c0: Catalog,
    c1: Catalog,
    e: EventMeta,
    schema: Seq<char>,
    name: Seq<char>,
    schedule_type: Option<String>,
    execute_at: Option<String>,
    interval_value: Option<String>,
    interval_field: Option<String>,
    status: Option<String>,
    rename_schema: Option<String>,
    rename_name: Option<String>,
    body: Option<String>,
    starts: Option<String>,
    ends: Option<String>,
    r: Result<QueryResult, ExecError>,
) -> bool {
    match (rename_schema, rename_name) {
        (Some(ns), Some(nn)) => {
            let same = eq_ignore_case_seq(ns@, schema) && eq_ignore_case_seq(nn@, name);
            if !same && has_event(c0.events_view(), ns@, nn@) {
                &&& catalog_same_except(c0, c1, CatalogPart::Nothing)
                &&& mysql_error(r, cat, 1537, "programs.event_exists"@, nn@)
            } else {
                &&& catalog_same_except(c0, c1, CatalogPart::Events)
                &&& done(r)
                &&& exists|k2: Seq<char>, m: EventMeta|
                    #![trigger c0.events_view().remove(k2).insert(program_key_spec(ns@, nn@), m)]
                    c0.events_view().contains_key(k2) && named_in(
                        c0.events_view()[k2].schema@,
                        c0.events_view()[k2].name@,
                        schema,
                        name,
                    ) && altered_event(m, e, ns@, nn@, schedule_type, execute_at, interval_value, interval_field, status, body, starts, ends)
                        && c1.events_view() == c0.events_view().remove(k2).insert(program_key_spec(ns@, nn@), m)
            }
        },
        _ => {
            &&& catalog_same_except(c0, c1, CatalogPart::Events)
            &&& done(r)
            &&& exists|m: EventMeta|
                #![trigger c0.events_view().insert(program_key_spec(m.schema@, m.name@), m)]
                altered_event(m, e, e.schema@, e.name@, schedule_type, execute_at, interval_value, interval_field, status, body, starts, ends)
                    && c1.events_view() == c0.events_view().insert(program_key_spec(m.schema@, m.name@), m)
        },
    }
}

/// What `ALTER EVENT` does: error 1539 when no event is so named; else see `event_altered_from`
/// for the event it read.
pub open spec fn event_altered(
    cat: MessageCatalog,
    c0: Catalog,
    c1: Catalog,
    schema: Seq<char>,
    name: Seq<char>,
    schedule_type: Option<String>,
    execute_at: Option<String>,
    interval_value: Option<String>,
    interval_field: Option<String>,
    status: Option<String>,
    rename_schema: Option<String>,
    rename_name: Option<String>,
    body: Option<String>,
    starts: Option<String>,
    ends: Option<String>,
    r: Result<QueryResult, ExecError>,
) -> bool {
    if !has_event(c0.events_view(), schema, name) {
        &&& catalog_same_except(c0, c1, CatalogPart::Nothing)
        &&& mysql_error(r, cat, 1539, "programs.event_not_found"@, name)
    } else {
        exists|k1: Seq<char>|
            #[trigger] c0.events_view().contains_key(k1) && named_in(
                c0.events_view()[k1].schema@,
                c0.events_view()[k1].name@,
                schema,
                name,
            ) && event_altered_from(cat, c0, c1, c0.events_view()[k1], schema, name, schedule_type, execute_at,
                interval_value, interval_field, status, rename_schema, rename_name, body, starts, ends, r)
    }
}

fn alter_event_ddl(
    cat: &MessageCatalog,
    catalog: &mut Catalog,
    schema: String,
    name: String,
    schedule_type: Option<String>,
    execute_at: Option<String>,
    interval_value: Option<String>,
    interval_field: Option<String>,
    status: Option<String>,
    rename_schema: Option<String>,
    rename_name: Option<String>,
    body: Option<String>,
    starts: Option<String>,
    ends: Option<String>,
) -> (r: Result<QueryResult, ExecError>)
    ensures
        event_altered(*cat, *old(catalog), *final(catalog), schema@, name@, schedule_type, execute_at,
            interval_value, interval_field, status, rename_schema, rename_name, body, starts, ends, r),
{
    let ghost c0 = *catalog;
    let e = match catalog.get_event(schema.as_str(), name.as_str()) {
        Some(found) => copy_event(found),
        None => {
            return Err(ExecError::Mysql { code: 1539, message: event_not_found(cat, name.as_str()) });
        },
    };
    let ghost k1 = choose|k: Seq<char>| #[trigger] c0.events_view().contains_key(k) && same_event(e, c0.events_view()[k])
        && named_in(c0.events_view()[k].schema@, c0.events_view()[k].name@, schema@, name@);
    let ghost e0 = c0.events_view()[k1];
    let ghost st0 = schedule_type;
    let ghost ea0 = execute_at;
    let ghost iv0 = interval_value;
    let ghost if0 = interval_field;
    let ghost status0 = status;
    let ghost body0 = body;
    let ghost starts0 = starts;
    let ghost ends0 = ends;
    let ghost rs0 = rename_schema;
    let ghost rn0 = rename_name;
    let mut m = e;
    match schedule_type {
        Some(st) => {
            m.schedule_type = st;
            m.execute_at = execute_at;
            m.interval_value = interval_value;
            m.interval_field = interval_field;
        },
        None => {},
    }
    match status {
        Some(x) => {
            m.status = x;
        },
        None => {},
    }
    match body {
        Some(x) => {
            m.body = x;
        },
        None => {},
    }
    match starts {
        Some(x) => {
            m.starts = Some(x);
        },
        None => {},
    }
    match ends {
        Some(x) => {
            m.ends = Some(x);
        },
        None => {},
    }
    match (rename_schema, rename_name) {
        (Some(ns), Some(nn)) => {
            let same = eq_ignore_ascii_case(ns.as_str(), schema.as_str()) && eq_ignore_ascii_case(
                nn.as_str(),
                name.as_str(),
            );
            if !same && catalog.get_event(ns.as_str(), nn.as_str()).is_some() {
                return Err(ExecError::Mysql { code: 1537, message: event_exists(cat, nn.as_str()) });
            }
            let ghost c_before = *catalog;
            catalog.drop_event(schema.as_str(), name.as_str());
            let ghost k2 = choose|k: Seq<char>| #[trigger] c0.events_view().contains_key(k) && named_in(
                c0.events_view()[k].schema@,
                c0.events_view()[k].name@,
                schema@,
                name@,
            ) && catalog.events_view() == c0.events_view().remove(k);
            m.schema = ns;
            m.name = nn;
            proof {
                assert(altered_event(m, e0, rs0->0@, rn0->0@, st0, ea0, iv0, if0, status0, body0, starts0, ends0));
            }
            catalog.create_event(m);
            proof {
                assert(catalog.events_view() == c0.events_view().remove(k2).insert(program_key_spec(rs0->0@, rn0->0@), m));
            }
        },
        _ => {
            proof {
                assert(altered_event(m, e0, e0.schema@, e0.name@, st0, ea0, iv0, if0, status0, body0, starts0, ends0));
            }
            catalog.create_event(m);
            proof {
                assert(catalog.events_view() == c0.events_view().insert(program_key_spec(m.schema@, m.name@), m));
            }
        },
    }
    done_result()
}

/// What a stored-program statement does to the catalog and the program store.
pub open spec fn ddl_outcome(
    cat: MessageCatalog,
    c0: Catalog,
    c1: Catalog,
    s0: ProgramStore,
    s1: ProgramStore,
    stmt: ProgramDdl,
    r: Result<QueryResult, ExecError>,
) -> bool {
    match stmt {
        ProgramDdl::CreateProcedure(meta) => procedure_created(cat, c0, c1, s0, s1, meta, r),
        ProgramDdl::CreateFunction(meta) => function_created(cat, c0, c1, s0, s1, meta, r),
        ProgramDdl::DropProcedure { schema, name, if_exists } => procedure_dropped(cat, c0, c1, s0, s1, schema@, name@, if_exists, r),
        ProgramDdl::DropFunction { schema, name, if_exists } => function_dropped_ddl(cat, c0, c1, s0, s1, schema@, name@, if_exists, r),
        ProgramDdl::CreateTrigger(meta) => trigger_created(cat, c0, c1, s0, s1, meta, r),
        ProgramDdl::DropTrigger { schema, name, if_exists } => trigger_dropped(cat, c0, c1, s0, s1, schema@, name@, if_exists, r),
        ProgramDdl::CreateEvent { meta, if_not_exists } => store_same(s0, s1) && event_created(cat, c0, c1, meta, if_not_exists, r),
        ProgramDdl::DropEvent { schema, name, if_exists } => store_same(s0, s1) && event_dropped_ddl(cat, c0, c1, schema@, name@, if_exists, r),
        ProgramDdl::AlterEvent {
            schema,
            name,
            schedule_type,
            execute_at,
            interval_value,
            interval_field,
            status,
            rename_schema,
            rename_name,
            body,
            starts,
            ends,
        } => store_same(s0, s1) && event_altered(cat, c0, c1, schema@, name@, schedule_type, execute_at,
            interval_value, interval_field, status, rename_schema, rename_name, body, starts, ends, r),
    }
}

/// Carries out a stored-program statement on the session catalog and the program store
/// (events are kept in the catalog): `CREATE` / `DROP` of procedures, functions and triggers,
/// and `CREATE` / `DROP` / `ALTER EVENT`, with their errors.
pub fn apply_program_ddl(
    cat: &MessageCatalog,
    catalog: &mut Catalog,
    store: &mut ProgramStore,
    stmt: ProgramDdl,
) -> (r: Result<QueryResult, ExecError>)
    ensures
        ddl_outcome(*cat, *old(catalog), *final(catalog), *old(store), *final(store), stmt, r),
{
    match stmt {
        ProgramDdl::CreateProcedure(meta) => create_procedure_ddl(cat, catalog, store, meta),
        ProgramDdl::CreateFunction(meta) => create_function_ddl(cat, catalog, store, meta),
        ProgramDdl::DropProcedure { schema, name, if_exists } => drop_procedure_ddl(cat, catalog, store, schema.as_str(), name.as_str(), if_exists),
        ProgramDdl::DropFunction { schema, name, if_exists } => drop_function_ddl(cat, catalog, store, schema.as_str(), name.as_str(), if_exists),
        ProgramDdl::CreateTrigger(meta) => create_trigger_ddl(cat, catalog, store, meta),
        ProgramDdl::DropTrigger { schema, name, if_exists } => drop_trigger_ddl(cat, catalog, store, schema.as_str(), name.as_str(), if_exists),
        ProgramDdl::CreateEvent { meta, if_not_exists } => create_event_ddl(cat, catalog, meta, if_not_exists),
        ProgramDdl::DropEvent { schema, name, if_exists } => drop_event_ddl(cat, catalog, schema.as_str(), name.as_str(), if_exists),
        ProgramDdl::AlterEvent {
            schema,
            name,
            schedule_type,
            execute_at,
            interval_value,
            interval_field,
            status,
            rename_schema,
            rename_name,
            body,
            starts,
            ends,
        } => alter_event_ddl(cat, catalog, schema, name, schedule_type, execute_at, interval_value, interval_field,
            status, rename_schema, rename_name, body, starts, ends),
    }
}
} // verus!
