//! The catalog side of `ALTER TABLE`: adding, dropping, renaming and replacing a column of a
//! table's metadata, and renaming the table.
use vstd::prelude::*;
use crate::catalog::{table_key_spec, texts, ColumnDef, ForeignKeyMeta, Session, TableMeta};
use crate::collation::Collation;
use crate::executor::push_str;
use crate::results::{ExecError, StorageError};
use crate::text::{eq_ignore_ascii_case, owned, string_from_chars};
use crate::where_filter::column_position;

verus! {

/// The plain values of a column.
pub open spec fn column_view(c: ColumnDef) -> (Seq<char>, Seq<char>, bool, bool, bool, Option<Collation>) {
    (c.name@, c.data_type@, c.nullable, c.primary_key, c.auto_increment, c.collation)
}

/// The plain values of a list of columns.
pub open spec fn columns_view(cs: Seq<ColumnDef>) -> Seq<(Seq<char>, Seq<char>, bool, bool, bool, Option<Collation>)> {
    Seq::new(cs.len(), |i: int| column_view(cs[i]))
}

/// The names of a list of columns.
pub open spec fn col_names(cs: Seq<ColumnDef>) -> Seq<Seq<char>> {
    Seq::new(cs.len(), |i: int| cs[i].name@)
}

/// The plain values of a foreign key.
pub open spec fn fk_view(f: ForeignKeyMeta) -> (Option<Seq<char>>, Seq<Seq<char>>, Seq<char>, Seq<char>, Seq<Seq<char>>, Seq<char>, Seq<char>) {
    (
        match f.name {
            Some(n) => Some(n@),
            None => None,
        },
        texts(f.columns@),
        f.referenced_schema@,
        f.referenced_table@,
        texts(f.referenced_columns@),
        f.on_delete@,
        f.on_update@,
    )
}

/// The plain values of the foreign keys of a table.
pub open spec fn fks_view(fs: Seq<ForeignKeyMeta>) -> Seq<(Option<Seq<char>>, Seq<Seq<char>>, Seq<char>, Seq<char>, Seq<Seq<char>>, Seq<char>, Seq<char>)> {
    Seq::new(fs.len(), |i: int| fk_view(fs[i]))
}

/// `m` is `t` but for its columns (and, unless `same_name`, its name).
pub open spec fn same_table_but_columns(m: TableMeta, t: TableMeta) -> bool {
    &&& m.name@ == t.name@
    &&& m.schema@ == t.schema@
    &&& m.auto_increment_next == t.auto_increment_next
    &&& fks_view(m.foreign_keys@) == fks_view(t.foreign_keys@)
}

/// The rest of the session, and every catalog part but the tables, are as they were.
pub open spec fn session_rest_same(a: Session, b: Session) -> bool {
    &&& a.id == b.id && a.user == b.user && a.host == b.host && a.database == b.database
    &&& a.process_list == b.process_list && a.last_insert_id == b.last_insert_id
    &&& a.row_count == b.row_count && a.found_rows == b.found_rows
    &&& a.sql_calc_found_rows == b.sql_calc_found_rows
    &&& a.session_vars == b.session_vars && a.user_vars == b.user_vars
    &&& a.catalog.views_view() == b.catalog.views_view()
    &&& a.catalog.procedures_view() == b.catalog.procedures_view()
    &&& a.catalog.functions_view() == b.catalog.functions_view()
    &&& a.catalog.triggers_view() == b.catalog.triggers_view()
    &&& a.catalog.events_view() == b.catalog.events_view()
}

/// The plain values of column `c` under the name `name`.
pub open spec fn renamed_column_view(c: ColumnDef, name: Seq<char>) -> (Seq<char>, Seq<char>, bool, bool, bool, Option<Collation>) {
    (name, c.data_type@, c.nullable, c.primary_key, c.auto_increment, c.collation)
}

/// `column '…' not found`.
pub open spec fn column_missing_msg(c: Seq<char>) -> Seq<char> {
    "column '"@ + c + "' not found"@
}

fn column_missing(c: &str) -> (r: String)
    ensures
        r@ == column_missing_msg(c@),
{
    let mut v: Vec<char> = Vec::new();
    push_str(&mut v, "column '");
    push_str(&mut v, c);
    push_str(&mut v, "' not found");
    string_from_chars(v.as_slice())
}

fn copy_strs(v: &Vec<String>) -> (r: Vec<String>)
    ensures
        texts(r@) == texts(v@),
{
    let mut out: Vec<String> = Vec::new();
    let mut i: usize = 0;
    while i < v.len()
        invariant
            i <= v@.len(),
            texts(out@) == texts(v@).take(i as int),
        decreases v@.len() - i,
    {
        let c = owned(v[i].as_str());
        proof {
            crate::results::lemma_texts_push(out@, c);
            assert(texts(v@).take(i + 1) =~= texts(v@).take(i as int).push(c@));
        }
        out.push(c);
        i = i + 1;
    }
    proof {
        assert(texts(v@).take(i as int) =~= texts(v@));
    }
    out
}

fn copy_column(c: &ColumnDef) -> (r: ColumnDef)
    ensures
        column_view(r) == column_view(*c),
{
    ColumnDef {
        name: owned(c.name.as_str()),
        data_type: owned(c.data_type.as_str()),
        nullable: c.nullable,
        primary_key: c.primary_key,
        auto_increment: c.auto_increment,
        collation: c.collation,
    }
}

fn copy_columns(v: &Vec<ColumnDef>) -> (r: Vec<ColumnDef>)
    ensures
        columns_view(r@) == columns_view(v@),
{
    let mut out: Vec<ColumnDef> = Vec::new();
    let mut i: usize = 0;
    while i < v.len()
        invariant
            i <= v@.len(),
            columns_view(out@) == columns_view(v@).take(i as int),
        decreases v@.len() - i,
    {
        let c = copy_column(&v[i]);
        proof {
            assert(columns_view(out@.push(c)) =~= columns_view(out@).push(column_view(c)));
            assert(columns_view(v@).take(i + 1) =~= columns_view(v@).take(i as int).push(column_view(c)));
        }
        out.push(c);
        i = i + 1;
    }
    proof {
        assert(columns_view(v@).take(i as int) =~= columns_view(v@));
    }
    out
}

fn copy_fks(v: &Vec<ForeignKeyMeta>) -> (r: Vec<ForeignKeyMeta>)
    ensures
        fks_view(r@) == fks_view(v@),
{
    let mut out: Vec<ForeignKeyMeta> = Vec::new();
    let mut i: usize = 0;
    while i < v.len()
        invariant
            i <= v@.len(),
            fks_view(out@) == fks_view(v@).take(i as int),
        decreases v@.len() - i,
    {
        let f = &v[i];
        let c = ForeignKeyMeta {
            name: match &f.name {
                Some(n) => Some(owned(n.as_str())),
                None => None,
            },
            columns: copy_strs(&f.columns),
            referenced_schema: owned(f.referenced_schema.as_str()),
            referenced_table: owned(f.referenced_table.as_str()),
            referenced_columns: copy_strs(&f.referenced_columns),
            on_delete: owned(f.on_delete.as_str()),
            on_update: owned(f.on_update.as_str()),
        };
        proof {
            assert(fk_view(c) == fk_view(*f));
            assert(fks_view(out@.push(c)) =~= fks_view(out@).push(fk_view(c)));
            assert(fks_view(v@).take(i + 1) =~= fks_view(v@).take(i as int).push(fk_view(c)));
        }
        out.push(c);
        i = i + 1;
    }
    proof {
        assert(fks_view(v@).take(i as int) =~= fks_view(v@));
    }
    out
}

/// The first column of `cs` named `name` (any ASCII case).
fn find_column(cs: &Vec<ColumnDef>, name: &str) -> (r: Option<usize>)
    ensures
        match column_position(col_names(cs@), name@) {
            Some(i) => r matches Some(x) && x == i && x < cs@.len(),
            None => r is None,
        },
{
    let ghost names = col_names(cs@);
    let mut i: usize = 0;
    while i < cs.len()
        invariant
            i <= cs@.len(),
            names == col_names(cs@),
            column_position(names.take(i as int), name@) is None,
        decreases cs@.len() - i,
    {
        proof {
            assert(names.take(i + 1).drop_last() =~= names.take(i as int));
        }
        if eq_ignore_ascii_case(cs[i].name.as_str(), name) {
            proof {
                lemma_position_extends(names, i as int, name@);
            }
            return Some(i);
        }
        i = i + 1;
    }
    proof {
        assert(names.take(i as int) =~= names);
    }
    None
}

/// Where a prefix has no match, the first match of the whole is at `i` if `i` matches.
proof fn lemma_position_extends(names: Seq<Seq<char>>, i: int, name: Seq<char>)
    requires
        0 <= i < names.len(),
        column_position(names.take(i), name) is None,
        crate::text::eq_ignore_case_seq(names[i], name),
    ensures
        column_position(names, name) == Some(i),
    decreases names.len(),
{
    if i == names.len() - 1 {
        assert(names.drop_last() =~= names.take(i));
    } else {
        assert(names.drop_last().take(i) =~= names.take(i));
        lemma_position_extends(names.drop_last(), i, name);
    }
}


fn copy_table_but_columns(t: &TableMeta, columns: Vec<ColumnDef>) -> (r: TableMeta)
    ensures
        same_table_but_columns(r, *t),
        r.columns == columns,
{
    TableMeta {
        name: owned(t.name.as_str()),
        schema: owned(t.schema.as_str()),
        columns,
        auto_increment_next: t.auto_increment_next,
        foreign_keys: copy_fks(&t.foreign_keys),
    }
}

/// The not-found storage error for `table`.
pub open spec fn table_missing(r: Result<(), ExecError>, table: Seq<char>) -> bool {
    r matches Err(ExecError::Storage(StorageError::TableNotFound(n))) && n@ == table
}

/// Whether the table under storage key `table` has a column named `column` (any ASCII case).
pub fn catalog_has_column(session: &Session, table: &str, column: &str) -> (r: bool)
    ensures
        r == (session.catalog.tables_view().contains_key(table@) && column_position(
            col_names(session.catalog.tables_view()[table@].columns@),
            column@,
        ) is Some),
{
    match session.catalog.get_table(table) {
        Some(meta) => find_column(&meta.columns, column).is_some(),
        None => false,
    }
}

/// Appends `column` to the columns of the table under storage key `table`, the table then
/// kept under its own key; a not-found storage error when there is no such table.
pub fn catalog_push_column(session: &mut Session, table: &str, column: ColumnDef) -> (r: Result<(), ExecError>)
    ensures
        session_rest_same(*old(session), *final(session)),
        match old(session).catalog.tables_view().get(table@) {
            None => table_missing(r, table@) && final(session).catalog.tables_view() == old(session).catalog.tables_view(),
            Some(t) => r is Ok && exists|m: TableMeta|
                #![trigger old(session).catalog.tables_view().insert(table_key_spec(m.schema@, m.name@), m)]
                same_table_but_columns(m, t) && columns_view(m.columns@) == columns_view(t.columns@).push(
                    column_view(column),
                ) && final(session).catalog.tables_view() == old(session).catalog.tables_view().insert(
                    table_key_spec(m.schema@, m.name@),
                    m,
                ),
        },
{
    let meta = match session.catalog.get_table(table) {
        Some(t) => {
            let mut cols = copy_columns(&t.columns);
            let ghost before = columns_view(cols@);
            cols.push(column);
            proof {
                assert(columns_view(cols@) =~= before.push(column_view(column)));
            }
            copy_table_but_columns(t, cols)
        },
        None => {
            return Err(ExecError::Storage(StorageError::TableNotFound(owned(table))));
        },
    };
    session.catalog.create_table(meta);
    Ok(())
}

/// Drops the first column named `column` (any ASCII case) from the table under storage key
/// `table`, the table then kept under its own key; nothing when there is none and `if_exists`
/// is set, else an error; a not-found storage error when there is no such table.
pub fn catalog_drop_column(session: &mut Session, table: &str, column: &str, if_exists: bool) -> (r: Result<(), ExecError>)
    ensures
        session_rest_same(*old(session), *final(session)),
        match old(session).catalog.tables_view().get(table@) {
            None => table_missing(r, table@) && final(session).catalog.tables_view() == old(session).catalog.tables_view(),
            Some(t) => match column_position(col_names(t.columns@), column@) {
                None => final(session).catalog.tables_view() == old(session).catalog.tables_view() && if if_exists {
                    r is Ok
                } else {
                    r matches Err(ExecError::Message(m)) && m@ == column_missing_msg(column@)
                },
                Some(i) => r is Ok && exists|m: TableMeta|
                    #![trigger old(session).catalog.tables_view().insert(table_key_spec(m.schema@, m.name@), m)]
                    same_table_but_columns(m, t) && columns_view(m.columns@) == columns_view(t.columns@).remove(i)
                        && final(session).catalog.tables_view() == old(session).catalog.tables_view().insert(
                        table_key_spec(m.schema@, m.name@),
                        m,
                    ),
            },
        },
{
    let meta = match session.catalog.get_table(table) {
        Some(t) => match find_column(&t.columns, column) {
            Some(idx) => {
                let mut cols = copy_columns(&t.columns);
                let ghost before = columns_view(cols@);
                proof {
                    assert(columns_view(cols@).len() == columns_view(t.columns@).len());
                    assert(cols@.len() == t.columns@.len());
                }
                cols.remove(idx);
                proof {
                    assert(columns_view(cols@) =~= before.remove(idx as int));
                }
                copy_table_but_columns(t, cols)
            },
            None => {
                if if_exists {
                    return Ok(());
                }
                return Err(ExecError::Message(column_missing(column)));
            },
        },
        None => {
            return Err(ExecError::Storage(StorageError::TableNotFound(owned(table))));
        },
    };
    session.catalog.create_table(meta);
    Ok(())
}

/// Renames the first column named `old_name` (any ASCII case) of the table under storage key
/// `table` to `new_name`, the table then kept under its own key; an error when there is no
/// such column, a not-found storage error when there is no such table.
pub fn catalog_rename_column(session: &mut Session, table: &str, old_name: &str, new_name: &str) -> (r: Result<(), ExecError>)
    ensures
        session_rest_same(*old(session), *final(session)),
        match old(session).catalog.tables_view().get(table@) {
            None => table_missing(r, table@) && final(session).catalog.tables_view() == old(session).catalog.tables_view(),
            Some(t) => match column_position(col_names(t.columns@), old_name@) {
                None => final(session).catalog.tables_view() == old(session).catalog.tables_view()
                    && (r matches Err(ExecError::Message(m)) && m@ == column_missing_msg(old_name@)),
                Some(i) => r is Ok && exists|m: TableMeta|
                    #![trigger old(session).catalog.tables_view().insert(table_key_spec(m.schema@, m.name@), m)]
                    same_table_but_columns(m, t) && columns_view(m.columns@) == columns_view(t.columns@).update(
                        i,
                        renamed_column_view(t.columns@[i], new_name@),
                    ) && final(session).catalog.tables_view() == old(session).catalog.tables_view().insert(
                        table_key_spec(m.schema@, m.name@),
                        m,
                    ),
            },
        },
{
    let meta = match session.catalog.get_table(table) {
        Some(t) => match find_column(&t.columns, old_name) {
            Some(idx) => {
                let mut cols = copy_columns(&t.columns);
                let ghost before = columns_view(cols@);
                proof {
                    assert(columns_view(cols@).len() == columns_view(t.columns@).len());
                    assert(cols@.len() == t.columns@.len());
                }
                let mut c = copy_column(&t.columns[idx]);
                c.name = owned(new_name);
                cols.set(idx, c);
                proof {
                    assert(columns_view(cols@) =~= before.update(idx as int, column_view(c)));
                }
                copy_table_but_columns(t, cols)
            },
            None => {
                return Err(ExecError::Message(column_missing(old_name)));
            },
        },
        None => {
            return Err(ExecError::Storage(StorageError::TableNotFound(owned(table))));
        },
    };
    session.catalog.create_table(meta);
    Ok(())
}

/// Replaces the first column named like `column` (any ASCII case) of the table under storage
/// key `table` by `column`, the table then kept under its own key; an error when there is no
/// such column, a not-found storage error when there is no such table.
pub fn catalog_replace_column(session: &mut Session, table: &str, column: ColumnDef) -> (r: Result<(), ExecError>)
    ensures
        session_rest_same(*old(session), *final(session)),
        match old(session).catalog.tables_view().get(table@) {
            None => table_missing(r, table@) && final(session).catalog.tables_view() == old(session).catalog.tables_view(),
            Some(t) => match column_position(col_names(t.columns@), column.name@) {
                None => final(session).catalog.tables_view() == old(session).catalog.tables_view()
                    && (r matches Err(ExecError::Message(m)) && m@ == column_missing_msg(column.name@)),
                Some(i) => r is Ok && exists|m: TableMeta|
                    #![trigger old(session).catalog.tables_view().insert(table_key_spec(m.schema@, m.name@), m)]
                    same_table_but_columns(m, t) && columns_view(m.columns@) == columns_view(t.columns@).update(
                        i,
                        column_view(column),
                    ) && final(session).catalog.tables_view() == old(session).catalog.tables_view().insert(
                        table_key_spec(m.schema@, m.name@),
                        m,
                    ),
            },
        },
{
    let meta = match session.catalog.get_table(table) {
        Some(t) => match find_column(&t.columns, column.name.as_str()) {
            Some(idx) => {
                let mut cols = copy_columns(&t.columns);
                let ghost before = columns_view(cols@);
                proof {
                    assert(columns_view(cols@).len() == columns_view(t.columns@).len());
                    assert(cols@.len() == t.columns@.len());
                }
                let ghost cv = column_view(column);
                cols.set(idx, column);
                proof {
                    assert(columns_view(cols@) =~= before.update(idx as int, cv));
                }
                copy_table_but_columns(t, cols)
            },
            None => {
                return Err(ExecError::Message(column_missing(column.name.as_str())));
            },
        },
        None => {
            return Err(ExecError::Storage(StorageError::TableNotFound(owned(table))));
        },
    };
    session.catalog.create_table(meta);
    Ok(())
}

/// Renames the table under storage key `old_name` to `new_name`: it leaves its key and is
/// kept under the key of its schema and the new name; a not-found storage error when there
/// is no such table.
pub fn catalog_rename_table(session: &mut Session, old_name: &str, new_name: &str) -> (r: Result<(), ExecError>)
    ensures
        session_rest_same(*old(session), *final(session)),
        match old(session).catalog.tables_view().get(old_name@) {
            None => table_missing(r, old_name@) && final(session).catalog.tables_view() == old(session).catalog.tables_view(),
            Some(t) => r is Ok && exists|m: TableMeta|
                #![trigger old(session).catalog.tables_view().remove(old_name@).insert(table_key_spec(m.schema@, new_name@), m)]
                m.name@ == new_name@ && m.schema@ == t.schema@ && columns_view(m.columns@) == columns_view(t.columns@)
                    && m.auto_increment_next == t.auto_increment_next && fks_view(m.foreign_keys@) == fks_view(
                    t.foreign_keys@,
                ) && final(session).catalog.tables_view() == old(session).catalog.tables_view().remove(
                    old_name@,
                ).insert(table_key_spec(m.schema@, new_name@), m),
        },
{
    let meta = match session.catalog.get_table(old_name) {
        Some(t) => {
            let cols = copy_columns(&t.columns);
            let mut m = copy_table_but_columns(t, cols);
            m.name = owned(new_name);
            m
        },
        None => {
            return Err(ExecError::Storage(StorageError::TableNotFound(owned(old_name))));
        },
    };
    session.catalog.drop_table(old_name);
    session.catalog.create_table(meta);
    Ok(())
}
} // verus!
