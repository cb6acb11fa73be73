//! Checks and helpers of the statement executor: foreign-key actions and references,
//! `information_schema` table names, and UTC timestamps of scheduled events.
use vstd::prelude::*;
use crate::results::ExecError;
use crate::catalog::{table_key_spec, table_storage_key, ColumnDef, ForeignKeyMeta, Session, TableMeta};
use crate::text::{
    decimal, eq_ignore_ascii_case, eq_ignore_case_seq, owned, str_chars, str_eq,
    string_from_chars, u64_to_string,
};

verus! {

/// Appends the characters of `s`.
pub(crate) fn push_str(out: &mut Vec<char>, s: &str)
    ensures
        final(out)@ == old(out)@ + s@,
{
    let c = str_chars(s);
    let mut i: usize = 0;
    while i < c.len()
        invariant
            i <= c@.len(),
            c@ == s@,
            out@ == old(out)@ + c@.take(i as int),
        decreases c@.len() - i,
    {
        out.push(c[i]);
        i = i + 1;
        proof {
            assert(out@ =~= old(out)@ + c@.take(i as int));
        }
    }
    proof {
        assert(c@.take(i as int) =~= c@);
    }
}

/// Whether a referential action is supported: `RESTRICT` or `NO ACTION`.
pub open spec fn fk_action_supported(action: Seq<char>) -> bool {
    action == "RESTRICT"@ || action == "NO ACTION"@
}

/// Accepts the supported referential actions; any other is an error naming the clause
/// (`DELETE` or `UPDATE`) and the action.
pub fn ensure_supported_fk_action(action: &str, kind: &str) -> (r: Result<(), ExecError>)
    ensures
        fk_action_supported(action@) ==> r is Ok,
        !fk_action_supported(action@) ==> (r matches Err(ExecError::Message(m)) && m@ == "unsupported FOREIGN KEY ON "@
            + kind@ + " "@ + action@),
{
    if str_eq(action, "RESTRICT") || str_eq(action, "NO ACTION") {
        return Ok(());
    }
    let mut out: Vec<char> = Vec::new();
    push_str(&mut out, "unsupported FOREIGN KEY ON ");
    push_str(&mut out, kind);
    push_str(&mut out, " ");
    push_str(&mut out, action);
    Err(ExecError::Message(string_from_chars(out.as_slice())))
}

/// Whether some column is named `name` (any ASCII case).
pub open spec fn has_column(cols: Seq<ColumnDef>, name: Seq<char>) -> bool {
    exists|i: int| 0 <= i < cols.len() && eq_ignore_case_seq(#[trigger] cols[i].name@, name)
}

/// The first of `names` from position `i` that no column has, if any.
pub open spec fn first_missing(cols: Seq<ColumnDef>, names: Seq<String>, i: int) -> Option<Seq<char>>
    decreases names.len() - i,
{
    if i < 0 || i >= names.len() {
        None
    } else if !has_column(cols, names[i]@) {
        Some(names[i]@)
    } else {
        first_missing(cols, names, i + 1)
    }
}

/// The error for a key column that is missing.
pub open spec fn missing_column_message(col: Seq<char>) -> Seq<char> {
    "Key column '"@ + col + "' doesn't exist in table"@
}

/// The name of a foreign key as the error for a missing parent table gives it.
pub open spec fn fk_name(fk: ForeignKeyMeta, table: Seq<char>) -> Seq<char> {
    match fk.name {
        Some(n) => n@,
        None => table + "_ibfk_"@ + decimal(1),
    }
}

/// The error for a foreign key whose parent table does not exist.
pub open spec fn missing_parent_message(fk: ForeignKeyMeta, table: Seq<char>) -> Seq<char> {
    "Failed to add the foreign key constraint. Missing index for constraint '"@ + fk_name(fk, table)
        + "' in the referenced table '"@ + fk.referenced_table@ + "'"@
}

/// The error of one foreign key of `meta`, if any: a missing parent table, then a missing
/// key column of the table, then a missing referenced column of the parent.
pub open spec fn fk_error(tables: Map<Seq<char>, TableMeta>, meta: TableMeta, fk: ForeignKeyMeta) -> Option<Seq<char>> {
    let key = table_key_spec(fk.referenced_schema@, fk.referenced_table@);
    if !tables.contains_key(key) {
        Some(missing_parent_message(fk, meta.name@))
    } else {
        match first_missing(meta.columns@, fk.columns@, 0) {
            Some(c) => Some(missing_column_message(c)),
            None => match first_missing(tables[key].columns@, fk.referenced_columns@, 0) {
                Some(c) => Some(missing_column_message(c)),
                None => None,
            },
        }
    }
}

/// The error of the first foreign key of `meta` from position `i` that has one.
pub open spec fn fks_error(tables: Map<Seq<char>, TableMeta>, meta: TableMeta, i: int) -> Option<Seq<char>>
    decreases meta.foreign_keys@.len() - i,
{
    if i < 0 || i >= meta.foreign_keys@.len() {
        None
    } else {
        match fk_error(tables, meta, meta.foreign_keys@[i]) {
            Some(e) => Some(e),
            None => fks_error(tables, meta, i + 1),
        }
    }
}

fn column_present(cols: &Vec<ColumnDef>, name: &str) -> (r: bool)
    ensures
        r == has_column(cols@, name@),
{
    let mut i: usize = 0;
    while i < cols.len()
        invariant
            i <= cols@.len(),
            forall|j: int| 0 <= j < i ==> !eq_ignore_case_seq(cols@[j].name@, name@),
        decreases cols@.len() - i,
    {
        if eq_ignore_ascii_case(cols[i].name.as_str(), name) {
            return true;
        }
        i = i + 1;
    }
    false
}

fn find_missing(cols: &Vec<ColumnDef>, names: &Vec<String>) -> (r: Option<String>)
    ensures
        match first_missing(cols@, names@, 0) {
            Some(c) => r matches Some(s) && s@ == c,
            None => r is None,
        },
{
    let mut i: usize = 0;
    while i < names.len()
        invariant
            i <= names@.len(),
            first_missing(cols@, names@, 0) == first_missing(cols@, names@, i as int),
        decreases names@.len() - i,
    {
        if !column_present(cols, names[i].as_str()) {
            return Some(owned(names[i].as_str()));
        }
        i = i + 1;
    }
    None
}

fn column_error(col: &String) -> (r: String)
    ensures
        r@ == missing_column_message(col@),
{
    let mut out: Vec<char> = Vec::new();
    push_str(&mut out, "Key column '");
    push_str(&mut out, col.as_str());
    push_str(&mut out, "' doesn't exist in table");
    string_from_chars(out.as_slice())
}

/// Checks the foreign keys of a new table: each parent table exists in the session's
/// catalog, and each key column exists in its table (any ASCII case).
pub fn validate_foreign_keys(session: &Session, meta: &TableMeta) -> (r: Result<(), ExecError>)
    ensures
        match fks_error(session.catalog.tables_view(), *meta, 0) {
            Some(e) => r matches Err(ExecError::Message(m)) && m@ == e,
            None => r is Ok,
        },
{
    let ghost tables = session.catalog.tables_view();
    let mut i: usize = 0;
    while i < meta.foreign_keys.len()
        invariant
            i <= meta.foreign_keys@.len(),
            tables == session.catalog.tables_view(),
            fks_error(tables, *meta, 0) == fks_error(tables, *meta, i as int),
        decreases meta.foreign_keys@.len() - i,
    {
        let fk = &meta.foreign_keys[i];
        let parent_key = table_storage_key(fk.referenced_schema.as_str(), fk.referenced_table.as_str());
        let parent = match session.catalog.get_table(parent_key.as_str()) {
            Some(p) => p,
            None => {
                let mut out: Vec<char> = Vec::new();
                push_str(&mut out, "Failed to add the foreign key constraint. Missing index for constraint '");
                let name = fk.constraint_name(meta.name.as_str(), 0);
                push_str(&mut out, name.as_str());
                push_str(&mut out, "' in the referenced table '");
                push_str(&mut out, fk.referenced_table.as_str());
                push_str(&mut out, "'");
                proof {
                    assert(((0 + 1) as nat) == 1);
                }
                return Err(ExecError::Message(string_from_chars(out.as_slice())));
            },
        };
        match find_missing(&meta.columns, &fk.columns) {
            Some(c) => {
                return Err(ExecError::Message(column_error(&c)));
            },
            None => {},
        }
        match find_missing(&parent.columns, &fk.referenced_columns) {
            Some(c) => {
                return Err(ExecError::Message(column_error(&c)));
            },
            None => {},
        }
        i = i + 1;
    }
    Ok(())
}

/// The `information_schema` table a name stands for: the lower-case names, and the
/// upper-case ones of all tables but `tables` and `columns`.
pub fn is_information_schema_table(name: &str) -> (r: Option<&'static str>)
    ensures
        r matches Some(t) ==> (t@ == "tables"@ && name@ == "information_schema.tables"@) || (t@
            == "columns"@ && name@ == "information_schema.columns"@) || (t@ == "schemata"@ && (name@
            == "information_schema.SCHEMATA"@ || name@ == "information_schema.schemata"@)) || (t@
            == "statistics"@ && (name@ == "information_schema.STATISTICS"@ || name@
            == "information_schema.statistics"@)) || (t@ == "views"@ && (name@
            == "information_schema.VIEWS"@ || name@ == "information_schema.views"@)) || (t@
            == "key_column_usage"@ && (name@ == "information_schema.KEY_COLUMN_USAGE"@ || name@
            == "information_schema.key_column_usage"@)) || (t@ == "routines"@ && (name@
            == "information_schema.ROUTINES"@ || name@ == "information_schema.routines"@)) || (t@
            == "triggers"@ && (name@ == "information_schema.TRIGGERS"@ || name@
            == "information_schema.triggers"@)) || (t@ == "events"@ && (name@
            == "information_schema.EVENTS"@ || name@ == "information_schema.events"@)),
        r is None ==> !(name@ == "information_schema.tables"@ || name@ == "information_schema.columns"@
            || name@ == "information_schema.SCHEMATA"@ || name@ == "information_schema.schemata"@
            || name@ == "information_schema.STATISTICS"@ || name@ == "information_schema.statistics"@
            || name@ == "information_schema.VIEWS"@ || name@ == "information_schema.views"@ || name@
            == "information_schema.KEY_COLUMN_USAGE"@ || name@ == "information_schema.key_column_usage"@
            || name@ == "information_schema.ROUTINES"@ || name@ == "information_schema.routines"@
            || name@ == "information_schema.TRIGGERS"@ || name@ == "information_schema.triggers"@
            || name@ == "information_schema.EVENTS"@ || name@ == "information_schema.events"@),
{
    if str_eq(name, "information_schema.tables") {
        Some("tables")
    } else if str_eq(name, "information_schema.columns") {
        Some("columns")
    } else if str_eq(name, "information_schema.SCHEMATA") || str_eq(name, "information_schema.schemata") {
        Some("schemata")
    } else if str_eq(name, "information_schema.STATISTICS") || str_eq(name, "information_schema.statistics") {
        Some("statistics")
    } else if str_eq(name, "information_schema.VIEWS") || str_eq(name, "information_schema.views") {
        Some("views")
    } else if str_eq(name, "information_schema.KEY_COLUMN_USAGE") || str_eq(
        name,
        "information_schema.key_column_usage",
    ) {
        Some("key_column_usage")
    } else if str_eq(name, "information_schema.ROUTINES") || str_eq(name, "information_schema.routines") {
        Some("routines")
    } else if str_eq(name, "information_schema.TRIGGERS") || str_eq(name, "information_schema.triggers") {
        Some("triggers")
    } else if str_eq(name, "information_schema.EVENTS") || str_eq(name, "information_schema.events") {
        Some("events")
    } else {
        None
    }
}

} // verus!
