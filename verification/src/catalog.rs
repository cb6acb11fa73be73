//! Catalog of tables, views and stored programs, and the client session.
use std::sync::Arc;
use vstd::prelude::*;
use crate::collation::{Collation, DEFAULT_CHARSET, DEFAULT_COLLATION};
use crate::name_map::NameMap;
use crate::processlist::ConnectionRegistry;
use crate::programs::{
    program_key, program_key_spec, FunctionMeta, ProcedureMeta, ProgramStore, TriggerEvent,
    TriggerMeta, TriggerTiming,
};
use crate::text::{
    eq_ignore_ascii_case, eq_ignore_case_seq, owned, str_chars, str_eq, string_from_chars,
    u64_to_string, decimal,
};

verus! {

/// Default logical database name.
pub const DEFAULT_SCHEMA: &'static str = "rusql";

/// Per-schema character set and collation.
#[derive(Debug, Clone, PartialEq, Eq)]
pub struct DatabaseMeta {
    pub character_set: String,
    pub collation: String,
}

impl DatabaseMeta {
    /// The documented defaults: `utf8mb4` and `utf8mb4_unicode_ci`.
    pub fn documented_default() -> (r: Self)
        ensures
            r.character_set@ == DEFAULT_CHARSET@,
            r.collation@ == "utf8mb4_unicode_ci"@,
    {
        DatabaseMeta {
            character_set: owned(DEFAULT_CHARSET),
            collation: owned(DEFAULT_COLLATION.name()),
        }
    }
}

fn push_str(out: &mut Vec<char>, s: &str)
    ensures
        final(out)@ == old(out)@ + s@,
{
    let c = str_chars(s);
    let mut i: usize = 0;
    while i < c.len()
        invariant
            i <= c@.len(),
            c@ == s@,
            out@ == old(out)@ + c@.take(i as int),
        decreases c@.len() - i,
    {
        out.push(c[i]);
        i = i + 1;
        proof {
            assert(out@ =~= old(out)@ + c@.take(i as int));
        }
    }
    proof {
        assert(c@.take(i as int) =~= c@);
    }
}

/// The storage key of a table: the bare name in the default schema, `schema.table` otherwise.
pub open spec fn table_key_spec(schema: Seq<char>, table: Seq<char>) -> Seq<char> {
    if schema == DEFAULT_SCHEMA@ {
        table
    } else {
        schema + "."@ + table
    }
}

/// Storage map key of a table.
pub fn table_storage_key(schema: &str, table: &str) -> (r: String)
    ensures
        r@ == table_key_spec(schema@, table@),
{
    if str_eq(schema, DEFAULT_SCHEMA) {
        owned(table)
    } else {
        let mut out: Vec<char> = Vec::new();
        push_str(&mut out, schema);
        push_str(&mut out, ".");
        push_str(&mut out, table);
        string_from_chars(out.as_slice())
    }
}

/// Column definition.
#[derive(Debug, Clone, PartialEq, Eq)]
pub struct ColumnDef {
    pub name: String,
    pub data_type: String,
    /// Nullable (`YES` in `DESCRIBE`).
    pub nullable: bool,
    pub primary_key: bool,
    pub auto_increment: bool,
    /// Column collation when `COLLATE` is given.
    pub collation: Option<Collation>,
}

impl ColumnDef {
    /// A nullable column without key, auto-increment or collation.
    pub fn new(name: &str, data_type: &str) -> (r: Self)
        ensures
            r.name@ == name@,
            r.data_type@ == data_type@,
            r.nullable,
            !r.primary_key,
            !r.auto_increment,
            r.collation is None,
    {
        ColumnDef {
            name: owned(name),
            data_type: owned(data_type),
            nullable: true,
            primary_key: false,
            auto_increment: false,
            collation: None,
        }
    }

    /// The collation for compare and sort on this column: its own, else the default.
    pub fn effective_collation(&self) -> (r: Collation)
        ensures
            r == match self.collation {
                Some(c) => c,
                None => DEFAULT_COLLATION,
            },
    {
        match self.collation {
            Some(c) => c,
            None => DEFAULT_COLLATION,
        }
    }
}

/// Foreign key metadata.
#[derive(Debug, Clone, PartialEq, Eq)]
pub struct ForeignKeyMeta {
    pub name: Option<String>,
    pub columns: Vec<String>,
    pub referenced_schema: String,
    pub referenced_table: String,
    pub referenced_columns: Vec<String>,
    /// `RESTRICT`, `NO ACTION`, `CASCADE`, ...
    pub on_delete: String,
    pub on_update: String,
}

impl ForeignKeyMeta {
    /// The constraint's name: its own, else `{table}_ibfk_{index + 1}`.
    pub fn constraint_name(&self, table: &str, index: usize) -> (r: String)
        requires
            index < u64::MAX,
        ensures
            r@ == match self.name {
                Some(n) => n@,
                None => table@ + "_ibfk_"@ + decimal((index + 1) as nat),
            },
    {
        match &self.name {
            Some(n) => owned(n.as_str()),
            None => {
                let mut out: Vec<char> = Vec::new();
                push_str(&mut out, table);
                push_str(&mut out, "_ibfk_");
                let num = u64_to_string(index as u64 + 1);
                push_str(&mut out, num.as_str());
                string_from_chars(out.as_slice())
            },
        }
    }
}

/// Table metadata.
#[derive(Debug, Clone, PartialEq, Eq)]
pub struct TableMeta {
    pub name: String,
    pub schema: String,
    pub columns: Vec<ColumnDef>,
    /// Next `AUTO_INCREMENT` value; `None` when the table has no such column.
    pub auto_increment_next: Option<u64>,
    pub foreign_keys: Vec<ForeignKeyMeta>,
}

impl Default for TableMeta {
    fn default() -> (r: Self)
        ensures
            r.name@ == Seq::<char>::empty(),
            r.schema@ == DEFAULT_SCHEMA@,
            r.columns@.len() == 0,
            r.auto_increment_next is None,
            r.foreign_keys@.len() == 0,
    {
        TableMeta {
            name: String::new(),
            schema: owned(DEFAULT_SCHEMA),
            columns: Vec::new(),
            auto_increment_next: None,
            foreign_keys: Vec::new(),
        }
    }
}

/// View metadata (a stored `SELECT`).
#[derive(Debug, Clone, PartialEq, Eq)]
pub struct ViewMeta {
    pub name: String,
    pub sql: String,
}

/// Secondary index metadata.
#[derive(Debug, Clone, PartialEq, Eq)]
pub struct IndexMeta {
    pub name: String,
    pub table: String,
    pub columns: Vec<String>,
}

impl IndexMeta {
    /// An index over `columns`.
    pub fn new(name: &str, table: &str, columns: Vec<String>) -> (r: Self)
        ensures
            r.name@ == name@,
            r.table@ == table@,
            r.columns == columns,
    {
        IndexMeta { name: owned(name), table: owned(table), columns }
    }

    /// An index over one column.
    pub fn single_column(name: &str, table: &str, column: &str) -> (r: Self)
        ensures
            r.name@ == name@,
            r.table@ == table@,
            r.columns@.len() == 1,
            r.columns@[0]@ == column@,
    {
        let mut columns: Vec<String> = Vec::new();
        columns.push(owned(column));
        IndexMeta::new(name, table, columns)
    }
}

/// A scheduled event.
#[derive(Debug, Clone, PartialEq, Eq)]
pub struct EventMeta {
    pub schema: String,
    pub name: String,
    pub schedule_type: String,
    pub execute_at: Option<String>,
    pub interval_value: Option<String>,
    pub interval_field: Option<String>,
    pub status: String,
    pub body: String,
    pub last_executed: Option<String>,
    pub starts: Option<String>,
    pub ends: Option<String>,
    pub definer: Option<String>,
    pub on_completion: Option<String>,
    pub comment: Option<String>,
}

/// In-memory database catalog.
#[derive(Debug)]
pub struct Catalog {
    tables: NameMap<TableMeta>,
    views: NameMap<ViewMeta>,
    procedures: NameMap<ProcedureMeta>,
    functions: NameMap<FunctionMeta>,
    triggers: NameMap<TriggerMeta>,
    events: NameMap<EventMeta>,
}

/// Whether a stored function or event is `name` (any ASCII case) in `schema`.
pub open spec fn named_in(s: Seq<char>, n: Seq<char>, schema: Seq<char>, name: Seq<char>) -> bool {
    s == schema && eq_ignore_case_seq(n, name)
}

/// Whether a trigger fires on `table` of `schema` at `timing` for `event`.
pub open spec fn trigger_fires(t: TriggerMeta, schema: Seq<char>, table: Seq<char>, timing: TriggerTiming, event: TriggerEvent) -> bool {
    t.schema@ == schema && t.table@ == table && t.timing == timing && t.event == event
}

impl Catalog {
    /// The tables by storage key.
    pub closed spec fn tables_view(&self) -> Map<Seq<char>, TableMeta> {
        self.tables@
    }

    /// The views by name.
    pub closed spec fn views_view(&self) -> Map<Seq<char>, ViewMeta> {
        self.views@
    }

    /// The procedures by `schema.name`.
    pub closed spec fn procedures_view(&self) -> Map<Seq<char>, ProcedureMeta> {
        self.procedures@
    }

    /// The functions by `schema.name`.
    pub closed spec fn functions_view(&self) -> Map<Seq<char>, FunctionMeta> {
        self.functions@
    }

    /// The triggers by `schema.name`.
    pub closed spec fn triggers_view(&self) -> Map<Seq<char>, TriggerMeta> {
        self.triggers@
    }

    /// The events by `schema.name`.
    pub closed spec fn events_view(&self) -> Map<Seq<char>, EventMeta> {
        self.events@
    }

    /// An empty catalog.
    pub fn new() -> (r: Self)
        ensures
            r.tables_view() == Map::<Seq<char>, TableMeta>::empty(),
            r.views_view() == Map::<Seq<char>, ViewMeta>::empty(),
            r.procedures_view() == Map::<Seq<char>, ProcedureMeta>::empty(),
            r.functions_view() == Map::<Seq<char>, FunctionMeta>::empty(),
            r.triggers_view() == Map::<Seq<char>, TriggerMeta>::empty(),
            r.events_view() == Map::<Seq<char>, EventMeta>::empty(),
    {
        Catalog {
            tables: NameMap::new(),
            views: NameMap::new(),
            procedures: NameMap::new(),
            functions: NameMap::new(),
            triggers: NameMap::new(),
            events: NameMap::new(),
        }
    }

    /// Adds or replaces a table under its storage key.
    pub fn create_table(&mut self, meta: TableMeta)
        ensures
            final(self).procedures_view() == old(self).procedures_view(),
            final(self).functions_view() == old(self).functions_view(),
            final(self).triggers_view() == old(self).triggers_view(),
            final(self).events_view() == old(self).events_view(),
            final(self).tables_view() == old(self).tables_view().insert(
                table_key_spec(meta.schema@, meta.name@),
                meta,
            ),
            final(self).views_view() == old(self).views_view(),
    {
        let key = table_storage_key(meta.schema.as_str(), meta.name.as_str());
        self.tables.insert(key, meta);
    }

    /// The table under a storage key.
    pub fn get_table(&self, name: &str) -> (r: Option<&TableMeta>)
        ensures
            r matches Some(t) ==> self.tables_view().contains_key(name@) && *t == self.tables_view()[name@],
            r is None ==> !self.tables_view().contains_key(name@),
    {
        self.tables.get(name)
    }

    /// Removes the table under a storage key.
    pub fn drop_table(&mut self, name: &str)
        ensures
            final(self).procedures_view() == old(self).procedures_view(),
            final(self).functions_view() == old(self).functions_view(),
            final(self).triggers_view() == old(self).triggers_view(),
            final(self).events_view() == old(self).events_view(),
            final(self).tables_view() == old(self).tables_view().remove(name@),
            final(self).views_view() == old(self).views_view(),
    {
        self.tables.remove(name);
    }

    /// The storage keys of the tables, each once.
    pub fn table_names(&self) -> (r: Vec<String>)
        ensures
            texts(r@).no_duplicates(),
            texts(r@).to_set() == self.tables_view().dom(),
    {
        let k = self.tables.keys();
        proof {
            assert(texts(k@) =~= self.tables.names());
        }
        k
    }

    /// The tables, each once.
    pub fn iter_tables(&self) -> (r: Vec<&TableMeta>)
        ensures
            exists|ks: Seq<Seq<char>>| #![auto] ks.no_duplicates() && ks.to_set() == self.tables_view().dom()
                && ks.len() == r@.len() && forall|i: int| 0 <= i < r@.len() ==> *r@[i] == self.tables_view()[ks[i]],
    {
        let v = self.tables.values();
        proof {
            let ks = self.tables.names();
            assert(forall|i: int| 0 <= i < v@.len() ==> *v@[i] == self.tables_view()[ks[i]]);
        }
        v
    }

    /// Adds or replaces a view.
    pub fn create_view(&mut self, meta: ViewMeta)
        ensures
            final(self).views_view() == old(self).views_view().insert(meta.name@, meta),
            final(self).tables_view() == old(self).tables_view(),
    {
        let key = owned(meta.name.as_str());
        self.views.insert(key, meta);
    }

    /// The view named `name`.
    pub fn get_view(&self, name: &str) -> (r: Option<&ViewMeta>)
        ensures
            r matches Some(t) ==> self.views_view().contains_key(name@) && *t == self.views_view()[name@],
            r is None ==> !self.views_view().contains_key(name@),
    {
        self.views.get(name)
    }

    /// The names of the views, each once.
    pub fn view_names(&self) -> (r: Vec<String>)
        ensures
            texts(r@).no_duplicates(),
            texts(r@).to_set() == self.views_view().dom(),
    {
        let k = self.views.keys();
        proof {
            assert(texts(k@) =~= self.views.names());
        }
        k
    }

    /// Whether `name` is a view.
    pub fn is_view(&self, name: &str) -> (r: bool)
        ensures
            r == self.views_view().contains_key(name@),
    {
        self.views.contains_key(name)
    }

    /// Adds or replaces a procedure under `schema.name`.
    pub fn create_procedure(&mut self, meta: ProcedureMeta)
        ensures
            final(self).tables_view() == old(self).tables_view(),
            final(self).views_view() == old(self).views_view(),
            final(self).events_view() == old(self).events_view(),
            final(self).procedures_view() == old(self).procedures_view().insert(
                program_key_spec(meta.schema@, meta.name@),
                meta,
            ),
            final(self).functions_view() == old(self).functions_view(),
            final(self).triggers_view() == old(self).triggers_view(),
    {
        let key = program_key(meta.schema.as_str(), meta.name.as_str());
        self.procedures.insert(key, meta);
    }

    /// The procedure `schema.name`.
    pub fn get_procedure(&self, schema: &str, name: &str) -> (r: Option<&ProcedureMeta>)
        ensures
            r matches Some(t) ==> self.procedures_view().contains_key(program_key_spec(schema@, name@))
                && *t == self.procedures_view()[program_key_spec(schema@, name@)],
            r is None ==> !self.procedures_view().contains_key(program_key_spec(schema@, name@)),
    {
        let key = program_key(schema, name);
        self.procedures.get(key.as_str())
    }

    /// Removes the procedure `schema.name`.
    pub fn drop_procedure(&mut self, schema: &str, name: &str)
        ensures
            final(self).tables_view() == old(self).tables_view(),
            final(self).views_view() == old(self).views_view(),
            final(self).functions_view() == old(self).functions_view(),
            final(self).triggers_view() == old(self).triggers_view(),
            final(self).events_view() == old(self).events_view(),
            final(self).procedures_view() == old(self).procedures_view().remove(program_key_spec(schema@, name@)),
    {
        let key = program_key(schema, name);
        self.procedures.remove(key.as_str());
    }

    /// The procedures, each once.
    pub fn iter_procedures(&self) -> (r: Vec<&ProcedureMeta>)
        ensures
            exists|ks: Seq<Seq<char>>| #![auto] ks.no_duplicates() && ks.to_set() == self.procedures_view().dom()
                && ks.len() == r@.len() && forall|i: int| 0 <= i < r@.len() ==> *r@[i] == self.procedures_view()[ks[i]],
    {
        let v = self.procedures.values();
        proof {
            let ks = self.procedures.names();
            assert(forall|i: int| 0 <= i < v@.len() ==> *v@[i] == self.procedures_view()[ks[i]]);
        }
        v
    }

    /// Adds or replaces a function under `schema.name`.
    pub fn create_function(&mut self, meta: FunctionMeta)
        ensures
            final(self).tables_view() == old(self).tables_view(),
            final(self).views_view() == old(self).views_view(),
            final(self).events_view() == old(self).events_view(),
            final(self).functions_view() == old(self).functions_view().insert(
                program_key_spec(meta.schema@, meta.name@),
                meta,
            ),
            final(self).procedures_view() == old(self).procedures_view(),
            final(self).triggers_view() == old(self).triggers_view(),
    {
        let key = program_key(meta.schema.as_str(), meta.name.as_str());
        self.functions.insert(key, meta);
    }

    /// A function of `schema` named `name` (any ASCII case); which one when several match
    /// is not fixed.
    pub fn get_function(&self, schema: &str, name: &str) -> (r: Option<&FunctionMeta>)
        ensures
            r matches Some(f) ==> named_in(f.schema@, f.name@, schema@, name@) && exists|k: Seq<char>|
                #[trigger] self.functions_view().contains_key(k) && self.functions_view()[k] == *f,
            r is None ==> forall|k: Seq<char>| #[trigger] self.functions_view().contains_key(k) ==> !named_in(
                self.functions_view()[k].schema@,
                self.functions_view()[k].name@,
                schema@,
                name@,
            ),
    {
        let values = self.functions.values();
        let mut i: usize = 0;
        while i < values.len()
            invariant
                i <= values@.len(),
                values@.len() == self.functions.names().len(),
                self.functions.names().to_set() == self.functions@.dom(),
                forall|j: int| 0 <= j < values@.len() ==> *(#[trigger] values@[j]) == self.functions@[self.functions.names()[j]],
                forall|j: int| 0 <= j < i ==> !named_in(values@[j].schema@, values@[j].name@, schema@, name@),
            decreases values@.len() - i,
        {
            let f = values[i];
            if str_eq(f.schema.as_str(), schema) && eq_ignore_ascii_case(f.name.as_str(), name) {
                proof {
                    let k = self.functions.names()[i as int];
                    assert(self.functions.names().to_set().contains(k));
                    assert(self.functions_view().contains_key(k));
                    assert(self.functions_view()[k] == *f);
                }
                return Some(f);
            }
            i = i + 1;
        }
        proof {
            assert forall|k: Seq<char>| #[trigger] self.functions_view().contains_key(k) implies !named_in(
                self.functions_view()[k].schema@, self.functions_view()[k].name@, schema@, name@) by {
                assert(self.functions.names().to_set().contains(k));
                let j = choose|j: int| 0 <= j < self.functions.names().len() && self.functions.names()[j] == k;
                assert(*values@[j] == self.functions@[k]);
            }
        }
        None
    }

    /// Removes a function of `schema` named `name` (any ASCII case), if any; which one when
    /// several match is not fixed.
    pub fn drop_function(&mut self, schema: &str, name: &str)
        ensures
            final(self).tables_view() == old(self).tables_view(),
            final(self).views_view() == old(self).views_view(),
            final(self).events_view() == old(self).events_view(),
            final(self).procedures_view() == old(self).procedures_view(),
            final(self).triggers_view() == old(self).triggers_view(),
            (forall|k: Seq<char>| #[trigger] old(self).functions_view().contains_key(k) ==> !named_in(
                old(self).functions_view()[k].schema@,
                old(self).functions_view()[k].name@,
                schema@,
                name@,
            )) ==> final(self).functions_view() == old(self).functions_view(),
            (exists|k: Seq<char>| #[trigger] old(self).functions_view().contains_key(k) && named_in(
                old(self).functions_view()[k].schema@,
                old(self).functions_view()[k].name@,
                schema@,
                name@,
            )) ==> exists|k: Seq<char>| #[trigger] old(self).functions_view().contains_key(k) && named_in(
                old(self).functions_view()[k].schema@,
                old(self).functions_view()[k].name@,
                schema@,
                name@,
            ) && final(self).functions_view() == old(self).functions_view().remove(k),
    {
        let keys = self.functions.keys();
        let values = self.functions.values();
        let mut i: usize = 0;
        while i < values.len()
            invariant
                self.tables == old(self).tables,
                self.views == old(self).views,
                self.procedures == old(self).procedures,
                self.triggers == old(self).triggers,
                self.events == old(self).events,
                i <= values@.len(),
                self.procedures == old(self).procedures,
                self.triggers == old(self).triggers,
                self.functions == old(self).functions,
                values@.len() == keys@.len() == self.functions.names().len(),
                self.functions.names().to_set() == self.functions@.dom(),
                forall|j: int| 0 <= j < keys@.len() ==> (#[trigger] keys@[j])@ == self.functions.names()[j],
                forall|j: int| 0 <= j < values@.len() ==> *(#[trigger] values@[j]) == self.functions@[self.functions.names()[j]],
                forall|j: int| 0 <= j < i ==> !named_in(values@[j].schema@, values@[j].name@, schema@, name@),
            decreases values@.len() - i,
        {
            let f = values[i];
            if str_eq(f.schema.as_str(), schema) && eq_ignore_ascii_case(f.name.as_str(), name) {
                let key = &keys[i];
                proof {
                    assert(self.functions.names().to_set().contains(self.functions.names()[i as int]));
                }
                self.functions.remove(key.as_str());
                return;
            }
            i = i + 1;
        }
        proof {
            assert forall|k: Seq<char>| #[trigger] self.functions_view().contains_key(k) implies !named_in(
                self.functions_view()[k].schema@, self.functions_view()[k].name@, schema@, name@) by {
                assert(self.functions.names().to_set().contains(k));
                let j = choose|j: int| 0 <= j < self.functions.names().len() && self.functions.names()[j] == k;
                assert(*values@[j] == self.functions@[k]);
            }
        }
    }

    /// The functions, each once.
    pub fn iter_functions(&self) -> (r: Vec<&FunctionMeta>)
        ensures
            exists|ks: Seq<Seq<char>>| #![auto] ks.no_duplicates() && ks.to_set() == self.functions_view().dom()
                && ks.len() == r@.len() && forall|i: int| 0 <= i < r@.len() ==> *r@[i] == self.functions_view()[ks[i]],
    {
        let v = self.functions.values();
        proof {
            let ks = self.functions.names();
            assert(forall|i: int| 0 <= i < v@.len() ==> *v@[i] == self.functions_view()[ks[i]]);
        }
        v
    }

    /// Adds or replaces an event under `schema.name`.
    pub fn create_event(&mut self, meta: EventMeta)
        ensures
            final(self).tables_view() == old(self).tables_view(),
            final(self).views_view() == old(self).views_view(),
            final(self).procedures_view() == old(self).procedures_view(),
            final(self).functions_view() == old(self).functions_view(),
            final(self).triggers_view() == old(self).triggers_view(),
            final(self).events_view() == old(self).events_view().insert(
                program_key_spec(meta.schema@, meta.name@),
                meta,
            ),
    {
        let key = program_key(meta.schema.as_str(), meta.name.as_str());
        self.events.insert(key, meta);
    }

    /// An event of `schema` named `name` (any ASCII case); which one when several match is
    /// not fixed.
    pub fn get_event(&self, schema: &str, name: &str) -> (r: Option<&EventMeta>)
        ensures
            r matches Some(f) ==> named_in(f.schema@, f.name@, schema@, name@) && exists|k: Seq<char>|
                #[trigger] self.events_view().contains_key(k) && self.events_view()[k] == *f,
            r is None ==> forall|k: Seq<char>| #[trigger] self.events_view().contains_key(k) ==> !named_in(
                self.events_view()[k].schema@,
                self.events_view()[k].name@,
                schema@,
                name@,
            ),
    {
        let values = self.events.values();
        let mut i: usize = 0;
        while i < values.len()
            invariant
                i <= values@.len(),
                values@.len() == self.events.names().len(),
                self.events.names().to_set() == self.events@.dom(),
                forall|j: int| 0 <= j < values@.len() ==> *(#[trigger] values@[j]) == self.events@[self.events.names()[j]],
                forall|j: int| 0 <= j < i ==> !named_in(values@[j].schema@, values@[j].name@, schema@, name@),
            decreases values@.len() - i,
        {
            let f = values[i];
            if str_eq(f.schema.as_str(), schema) && eq_ignore_ascii_case(f.name.as_str(), name) {
                proof {
                    let k = self.events.names()[i as int];
                    assert(self.events.names().to_set().contains(k));
                    assert(self.events_view().contains_key(k));
                    assert(self.events_view()[k] == *f);
                }
                return Some(f);
            }
            i = i + 1;
        }
        proof {
            assert forall|k: Seq<char>| #[trigger] self.events_view().contains_key(k) implies !named_in(
                self.events_view()[k].schema@, self.events_view()[k].name@, schema@, name@) by {
                assert(self.events.names().to_set().contains(k));
                let j = choose|j: int| 0 <= j < self.events.names().len() && self.events.names()[j] == k;
                assert(*values@[j] == self.events@[k]);
            }
        }
        None
    }

    /// Removes an event of `schema` named `name` (any ASCII case), if any; which one when
    /// several match is not fixed.
    pub fn drop_event(&mut self, schema: &str, name: &str)
        ensures
            final(self).tables_view() == old(self).tables_view(),
            final(self).views_view() == old(self).views_view(),
            final(self).procedures_view() == old(self).procedures_view(),
            final(self).functions_view() == old(self).functions_view(),
            final(self).triggers_view() == old(self).triggers_view(),
            (forall|k: Seq<char>| #[trigger] old(self).events_view().contains_key(k) ==> !named_in(
                old(self).events_view()[k].schema@,
                old(self).events_view()[k].name@,
                schema@,
                name@,
            )) ==> final(self).events_view() == old(self).events_view(),
            (exists|k: Seq<char>| #[trigger] old(self).events_view().contains_key(k) && named_in(
                old(self).events_view()[k].schema@,
                old(self).events_view()[k].name@,
                schema@,
                name@,
            )) ==> exists|k: Seq<char>| #[trigger] old(self).events_view().contains_key(k) && named_in(
                old(self).events_view()[k].schema@,
                old(self).events_view()[k].name@,
                schema@,
                name@,
            ) && final(self).events_view() == old(self).events_view().remove(k),
    {
        let keys = self.events.keys();
        let values = self.events.values();
        let mut i: usize = 0;
        while i < values.len()
            invariant
                self.tables == old(self).tables,
                self.views == old(self).views,
                self.procedures == old(self).procedures,
                self.functions == old(self).functions,
                self.triggers == old(self).triggers,
                i <= values@.len(),
                self.events == old(self).events,
                values@.len() == keys@.len() == self.events.names().len(),
                self.events.names().to_set() == self.events@.dom(),
                forall|j: int| 0 <= j < keys@.len() ==> (#[trigger] keys@[j])@ == self.events.names()[j],
                forall|j: int| 0 <= j < values@.len() ==> *(#[trigger] values@[j]) == self.events@[self.events.names()[j]],
                forall|j: int| 0 <= j < i ==> !named_in(values@[j].schema@, values@[j].name@, schema@, name@),
            decreases values@.len() - i,
        {
            let f = values[i];
            if str_eq(f.schema.as_str(), schema) && eq_ignore_ascii_case(f.name.as_str(), name) {
                let key = &keys[i];
                proof {
                    assert(self.events.names().to_set().contains(self.events.names()[i as int]));
                }
                self.events.remove(key.as_str());
                return;
            }
            i = i + 1;
        }
        proof {
            assert forall|k: Seq<char>| #[trigger] self.events_view().contains_key(k) implies !named_in(
                self.events_view()[k].schema@, self.events_view()[k].name@, schema@, name@) by {
                assert(self.events.names().to_set().contains(k));
                let j = choose|j: int| 0 <= j < self.events.names().len() && self.events.names()[j] == k;
                assert(*values@[j] == self.events@[k]);
            }
        }
    }

    /// The events, each once.
    pub fn iter_events(&self) -> (r: Vec<&EventMeta>)
        ensures
            exists|ks: Seq<Seq<char>>| #![auto] ks.no_duplicates() && ks.to_set() == self.events_view().dom()
                && ks.len() == r@.len() && forall|i: int| 0 <= i < r@.len() ==> *r@[i] == self.events_view()[ks[i]],
    {
        let v = self.events.values();
        proof {
            let ks = self.events.names();
            assert(forall|i: int| 0 <= i < v@.len() ==> *v@[i] == self.events_view()[ks[i]]);
        }
        v
    }

    /// Adds or replaces a trigger under `schema.name`.
    pub fn create_trigger(&mut self, meta: TriggerMeta)
        ensures
            final(self).tables_view() == old(self).tables_view(),
            final(self).views_view() == old(self).views_view(),
            final(self).events_view() == old(self).events_view(),
            final(self).triggers_view() == old(self).triggers_view().insert(
                program_key_spec(meta.schema@, meta.name@),
                meta,
            ),
            final(self).procedures_view() == old(self).procedures_view(),
            final(self).functions_view() == old(self).functions_view(),
    {
        let key = program_key(meta.schema.as_str(), meta.name.as_str());
        self.triggers.insert(key, meta);
    }

    /// The trigger `schema.name`.
    pub fn get_trigger(&self, schema: &str, name: &str) -> (r: Option<&TriggerMeta>)
        ensures
            r matches Some(t) ==> self.triggers_view().contains_key(program_key_spec(schema@, name@))
                && *t == self.triggers_view()[program_key_spec(schema@, name@)],
            r is None ==> !self.triggers_view().contains_key(program_key_spec(schema@, name@)),
    {
        let key = program_key(schema, name);
        self.triggers.get(key.as_str())
    }

    /// Removes the trigger `schema.name`.
    pub fn drop_trigger(&mut self, schema: &str, name: &str)
        ensures
            final(self).tables_view() == old(self).tables_view(),
            final(self).views_view() == old(self).views_view(),
            final(self).procedures_view() == old(self).procedures_view(),
            final(self).functions_view() == old(self).functions_view(),
            final(self).events_view() == old(self).events_view(),
            final(self).triggers_view() == old(self).triggers_view().remove(program_key_spec(schema@, name@)),
    {
        let key = program_key(schema, name);
        self.triggers.remove(key.as_str());
    }

    /// The triggers that fire on `table` of `schema` at `timing` for `event`, each once.
    pub fn triggers_for_table(
        &self,
        schema: &str,
        table: &str,
        timing: TriggerTiming,
        event: TriggerEvent,
    ) -> (r: Vec<&TriggerMeta>)
        ensures
            exists|ks: Seq<Seq<char>>| #[trigger] firing_listed(self.triggers_view(), ks, r@, schema@, table@, timing, event),
    {
        let values = self.triggers.values();
        let ghost names = self.triggers.names();
        let mut out: Vec<&TriggerMeta> = Vec::new();
        let ghost mut ks: Seq<Seq<char>> = Seq::empty();
        let ghost mut idx: Seq<int> = Seq::empty();
        let mut i: usize = 0;
        while i < values.len()
            invariant
                i <= values@.len(),
                names == self.triggers.names(),
                values@.len() == names.len(),
                names.no_duplicates(),
                names.to_set() == self.triggers@.dom(),
                forall|j: int| 0 <= j < values@.len() ==> *(#[trigger] values@[j]) == self.triggers@[names[j]],
                out@.len() == ks.len() == idx.len(),
                forall|a: int| 0 <= a < idx.len() ==> 0 <= #[trigger] idx[a] < i && ks[a] == names[idx[a]],
                forall|a: int, b: int| 0 <= a < b < idx.len() ==> #[trigger] idx[a] < #[trigger] idx[b],
                forall|a: int| 0 <= a < out@.len() ==> *(#[trigger] out@[a]) == *values@[idx[a]],
                forall|a: int| 0 <= a < out@.len() ==> trigger_fires(*(#[trigger] out@[a]), schema@, table@, timing, event),
                forall|j: int| 0 <= j < i && trigger_fires(*(#[trigger] values@[j]), schema@, table@, timing, event) ==> exists|a: int| 0 <= a < idx.len() && idx[a] == j,
            decreases values@.len() - i,
        {
            let t = values[i];
            let ghost idx0 = idx;
            if str_eq(t.schema.as_str(), schema) && str_eq(t.table.as_str(), table) && t.timing == timing && t.event == event {
                out.push(t);
                proof {
                    ks = ks.push(names[i as int]);
                    idx = idx.push(i as int);
                    assert(idx[idx.len() - 1] == i);
                }
            }
            proof {
                assert forall|j: int| 0 <= j < i + 1 && trigger_fires(*(#[trigger] values@[j]), schema@, table@, timing, event) implies exists|a: int| 0 <= a < idx.len() && idx[a] == j by {
                    if j < i {
                        let a = choose|a: int| 0 <= a < idx0.len() && idx0[a] == j;
                        assert(idx[a] == j);
                    } else {
                        assert(idx[idx.len() - 1] == j);
                    }
                }
            }
            i = i + 1;
        }
        proof {
            assert forall|a: int, b: int| 0 <= a < ks.len() && 0 <= b < ks.len() && a != b implies ks[a] != ks[b] by {
                if a < b {
                    assert(idx[a] < idx[b]);
                } else {
                    assert(idx[b] < idx[a]);
                }
            }
            assert(ks.no_duplicates());
            assert forall|a: int| 0 <= a < out@.len() implies self.triggers_view().contains_key(#[trigger] ks[a]) && *out@[a] == self.triggers_view()[ks[a]] by {
                assert(names.to_set().contains(names[idx[a]]));
            }
            assert forall|k: Seq<char>| #[trigger] self.triggers_view().contains_key(k) && trigger_fires(self.triggers_view()[k], schema@, table@, timing, event) implies ks.contains(k) by {
                assert(names.to_set().contains(k));
                let j = choose|j: int| 0 <= j < names.len() && names[j] == k;
                assert(*values@[j] == self.triggers@[k]);
                let a = choose|a: int| 0 <= a < idx.len() && idx[a] == j;
                assert(ks[a] == k);
            }
            assert(firing_listed(self.triggers_view(), ks, out@, schema@, table@, timing, event));
        }
        out
    }

    /// The triggers, each once.
    pub fn iter_triggers(&self) -> (r: Vec<&TriggerMeta>)
        ensures
            exists|ks: Seq<Seq<char>>| #![auto] ks.no_duplicates() && ks.to_set() == self.triggers_view().dom()
                && ks.len() == r@.len() && forall|i: int| 0 <= i < r@.len() ==> *r@[i] == self.triggers_view()[ks[i]],
    {
        let v = self.triggers.values();
        proof {
            let ks = self.triggers.names();
            assert(forall|i: int| 0 <= i < v@.len() ==> *v@[i] == self.triggers_view()[ks[i]]);
        }
        v
    }
}

/// `rs` lists the triggers of `m` that fire on `table` of `schema` at `timing` for `event`,
/// each once, under the distinct keys `ks`.
pub open spec fn firing_listed(
    m: Map<Seq<char>, TriggerMeta>,
    ks: Seq<Seq<char>>,
    rs: Seq<&TriggerMeta>,
    schema: Seq<char>,
    table: Seq<char>,
    timing: TriggerTiming,
    event: TriggerEvent,
) -> bool {
    &&& ks.no_duplicates()
    &&& ks.len() == rs.len()
    &&& forall|i: int| 0 <= i < rs.len() ==> m.contains_key(#[trigger] ks[i]) && *rs[i] == m[ks[i]]
    &&& forall|k: Seq<char>| #[trigger] m.contains_key(k) && trigger_fires(m[k], schema, table, timing, event) ==> ks.contains(k)
    &&& forall|i: int| 0 <= i < rs.len() ==> trigger_fires(*(#[trigger] rs[i]), schema, table, timing, event)
}

/// The texts of a list of strings.
pub open spec fn texts(v: Seq<String>) -> Seq<Seq<char>> {
    Seq::new(v.len(), |i: int| v[i]@)
}


/// Client session state.
#[derive(Debug)]
pub struct Session {
    pub id: u64,
    pub user: String,
    /// Client host pattern (`%` when unknown).
    pub host: String,
    /// Current default database (`USE db`).
    pub database: String,
    pub catalog: Catalog,
    /// Active connection registry for `SHOW PROCESSLIST` (server only).
    pub process_list: Option<Arc<ConnectionRegistry>>,
    /// First generated `AUTO_INCREMENT` value of the last successful `INSERT`; `0` until one.
    pub last_insert_id: u64,
    /// Affected rows of the last statement (`ROW_COUNT()`); `-1` after a result set and on a
    /// new connection.
    pub row_count: i64,
    /// `FOUND_ROWS()`; `0` on a new connection.
    pub found_rows: i64,
    /// Set while a rewritten `SELECT SQL_CALC_FOUND_ROWS` runs.
    pub sql_calc_found_rows: bool,
    /// `SET @@` overlay of this connection.
    pub session_vars: NameMap<String>,
    /// User variables (`@foo`) of this connection.
    pub user_vars: NameMap<String>,
}

impl Session {
    /// A new session of `user` in the default schema, with an empty catalog.
    pub fn new(id: u64, user: &str) -> (r: Self)
        ensures
            r.id == id,
            r.user@ == user@,
            r.host@ == "%"@,
            r.database@ == DEFAULT_SCHEMA@,
            r.catalog.tables_view() == Map::<Seq<char>, TableMeta>::empty(),
            r.catalog.views_view() == Map::<Seq<char>, ViewMeta>::empty(),
            r.catalog.procedures_view() == Map::<Seq<char>, ProcedureMeta>::empty(),
            r.catalog.functions_view() == Map::<Seq<char>, FunctionMeta>::empty(),
            r.catalog.triggers_view() == Map::<Seq<char>, TriggerMeta>::empty(),
            r.catalog.events_view() == Map::<Seq<char>, EventMeta>::empty(),
            r.process_list is None,
            r.last_insert_id == 0,
            r.row_count == -1,
            r.found_rows == 0,
            !r.sql_calc_found_rows,
            r.session_vars@ == Map::<Seq<char>, String>::empty(),
            r.user_vars@ == Map::<Seq<char>, String>::empty(),
    {
        Session {
            id,
            user: owned(user),
            host: owned("%"),
            database: owned(DEFAULT_SCHEMA),
            catalog: Catalog::new(),
            process_list: None,
            last_insert_id: 0,
            row_count: -1,
            found_rows: 0,
            sql_calc_found_rows: false,
            session_vars: NameMap::new(),
            user_vars: NameMap::new(),
        }
    }

    /// Clears the `@@` overlay and the user variables (`COM_RESET_CONNECTION`,
    /// `COM_CHANGE_USER`).
    pub fn clear_session_vars(&mut self)
        ensures
            final(self).session_vars@ == Map::<Seq<char>, String>::empty(),
            final(self).user_vars@ == Map::<Seq<char>, String>::empty(),
            final(self).id == old(self).id,
            final(self).user == old(self).user,
            final(self).host == old(self).host,
            final(self).database == old(self).database,
            final(self).catalog == old(self).catalog,
            final(self).process_list == old(self).process_list,
            final(self).last_insert_id == old(self).last_insert_id,
            final(self).row_count == old(self).row_count,
            final(self).found_rows == old(self).found_rows,
            final(self).sql_calc_found_rows == old(self).sql_calc_found_rows,
    {
        self.session_vars.clear();
        self.user_vars.clear();
    }
}

/// The plain values of a procedure: schema, name, body statements.
pub open spec fn procedure_view(p: ProcedureMeta) -> (Seq<char>, Seq<char>, Seq<Seq<char>>) {
    (p.schema@, p.name@, texts(p.body@))
}

/// The plain values of a function: schema, name, return type, return expression.
pub open spec fn function_view(f: FunctionMeta) -> (Seq<char>, Seq<char>, Seq<char>, Seq<char>) {
    (f.schema@, f.name@, f.return_type@, f.return_expr@)
}

fn clone_strings(v: &Vec<String>) -> (r: Vec<String>)
    ensures
        texts(r@) == texts(v@),
{
    let mut out: Vec<String> = Vec::new();
    let mut i: usize = 0;
    while i < v.len()
        invariant
            i <= v@.len(),
            out@.len() == i,
            forall|j: int| 0 <= j < i ==> (#[trigger] out@[j])@ == v@[j]@,
        decreases v@.len() - i,
    {
        out.push(owned(v[i].as_str()));
        i = i + 1;
    }
    proof {
        assert(texts(out@) =~= texts(v@));
    }
    out
}

fn clone_procedure(p: &ProcedureMeta) -> (r: ProcedureMeta)
    ensures
        procedure_view(r) == procedure_view(*p),
{
    ProcedureMeta {
        schema: owned(p.schema.as_str()),
        name: owned(p.name.as_str()),
        body: clone_strings(&p.body),
    }
}

fn clone_function(f: &FunctionMeta) -> (r: FunctionMeta)
    ensures
        function_view(r) == function_view(*f),
{
    FunctionMeta {
        schema: owned(f.schema.as_str()),
        name: owned(f.name.as_str()),
        return_type: owned(f.return_type.as_str()),
        return_expr: owned(f.return_expr.as_str()),
    }
}

fn clone_trigger(t: &TriggerMeta) -> (r: TriggerMeta)
    ensures
        r.schema@ == t.schema@,
        r.table@ == t.table@,
        r.name@ == t.name@,
        r.timing == t.timing,
        r.event == t.event,
        texts(r.body@) == texts(t.body@),
{
    TriggerMeta {
        schema: owned(t.schema.as_str()),
        table: owned(t.table.as_str()),
        name: owned(t.name.as_str()),
        timing: t.timing,
        event: t.event,
        body: clone_strings(&t.body),
    }
}

impl ProgramStore {
    /// Copies every stored procedure, function and trigger into `catalog`, under its catalog
    /// key (`schema.name`).
    pub fn seed_catalog(&self, catalog: &mut Catalog)
        ensures
            forall|k: Seq<char>| #[trigger] self.procedures@.contains_key(k) ==> {
                let p = self.procedures@[k];
                &&& final(catalog).procedures_view().contains_key(program_key_spec(p.schema@, p.name@))
            },
            forall|k: Seq<char>| #[trigger] self.functions@.contains_key(k) ==> {
                let f = self.functions@[k];
                &&& final(catalog).functions_view().contains_key(program_key_spec(f.schema@, f.name@))
            },
            forall|k: Seq<char>| #[trigger] self.triggers@.contains_key(k) ==> {
                let t = self.triggers@[k];
                &&& final(catalog).triggers_view().contains_key(program_key_spec(t.schema@, t.name@))
            },
    {
        let procs = self.procedures.values();
        let mut i: usize = 0;
        while i < procs.len()
            invariant
                i <= procs@.len(),
                procs@.len() == self.procedures.names().len(),
                self.procedures.names().to_set() == self.procedures@.dom(),
                forall|j: int| 0 <= j < procs@.len() ==> *(#[trigger] procs@[j]) == self.procedures@[self.procedures.names()[j]],
                forall|j: int| 0 <= j < i ==> catalog.procedures_view().contains_key(
                    program_key_spec((#[trigger] procs@[j]).schema@, procs@[j].name@),
                ),
            decreases procs@.len() - i,
        {
            let p = clone_procedure(procs[i]);
            catalog.create_procedure(p);
            i = i + 1;
        }
        let funcs = self.functions.values();
        let mut j: usize = 0;
        while j < funcs.len()
            invariant
                j <= funcs@.len(),
                funcs@.len() == self.functions.names().len(),
                self.functions.names().to_set() == self.functions@.dom(),
                forall|a: int| 0 <= a < funcs@.len() ==> *(#[trigger] funcs@[a]) == self.functions@[self.functions.names()[a]],
                forall|a: int| 0 <= a < procs@.len() ==> catalog.procedures_view().contains_key(
                    program_key_spec((#[trigger] procs@[a]).schema@, procs@[a].name@),
                ),
                forall|a: int| 0 <= a < j ==> catalog.functions_view().contains_key(
                    program_key_spec((#[trigger] funcs@[a]).schema@, funcs@[a].name@),
                ),
            decreases funcs@.len() - j,
        {
            let f = clone_function(funcs[j]);
            catalog.create_function(f);
            j = j + 1;
        }
        let trigs = self.triggers.values();
        let mut t: usize = 0;
        while t < trigs.len()
            invariant
                t <= trigs@.len(),
                trigs@.len() == self.triggers.names().len(),
                self.triggers.names().to_set() == self.triggers@.dom(),
                forall|a: int| 0 <= a < trigs@.len() ==> *(#[trigger] trigs@[a]) == self.triggers@[self.triggers.names()[a]],
                forall|a: int| 0 <= a < procs@.len() ==> catalog.procedures_view().contains_key(
                    program_key_spec((#[trigger] procs@[a]).schema@, procs@[a].name@),
                ),
                forall|a: int| 0 <= a < funcs@.len() ==> catalog.functions_view().contains_key(
                    program_key_spec((#[trigger] funcs@[a]).schema@, funcs@[a].name@),
                ),
                forall|a: int| 0 <= a < t ==> catalog.triggers_view().contains_key(
                    program_key_spec((#[trigger] trigs@[a]).schema@, trigs@[a].name@),
                ),
            decreases trigs@.len() - t,
        {
            let tr = clone_trigger(trigs[t]);
            catalog.create_trigger(tr);
            t = t + 1;
        }
        proof {
            assert forall|k: Seq<char>| #[trigger] self.procedures@.contains_key(k) implies catalog.procedures_view().contains_key(
                program_key_spec(self.procedures@[k].schema@, self.procedures@[k].name@)) by {
                assert(self.procedures.names().to_set().contains(k));
                let a = choose|a: int| 0 <= a < self.procedures.names().len() && self.procedures.names()[a] == k;
                assert(*procs@[a] == self.procedures@[k]);
            }
            assert forall|k: Seq<char>| #[trigger] self.functions@.contains_key(k) implies catalog.functions_view().contains_key(
                program_key_spec(self.functions@[k].schema@, self.functions@[k].name@)) by {
                assert(self.functions.names().to_set().contains(k));
                let a = choose|a: int| 0 <= a < self.functions.names().len() && self.functions.names()[a] == k;
                assert(*funcs@[a] == self.functions@[k]);
            }
            assert forall|k: Seq<char>| #[trigger] self.triggers@.contains_key(k) implies catalog.triggers_view().contains_key(
                program_key_spec(self.triggers@[k].schema@, self.triggers@[k].name@)) by {
                assert(self.triggers.names().to_set().contains(k));
                let a = choose|a: int| 0 <= a < self.triggers.names().len() && self.triggers.names()[a] == k;
                assert(*trigs@[a] == self.triggers@[k]);
            }
        }
    }
}

} // verus!
