//! `DESCRIBE`, `SHOW CREATE`, `SHOW COLLATION` and the catalog-backed
//! `information_schema` tables.
use vstd::prelude::*;
use crate::catalog::{texts, ColumnDef, EventMeta, ForeignKeyMeta, Session, TableMeta, ViewMeta};
use crate::collation::Collation;
use crate::privileges::{
    group_rows, account_groups, rows_of, rows_sorted, show_grants_lines, Account, PrivilegeStore,
    UserRow,
};
use crate::processlist::{row_of, ConnView};
use crate::results::{ExecError, StorageError};
use crate::sorting::{
    lemma_permutation_distinct, sort_strings, stable_order, stable_sort_order, texts_of, texts_sorted,
};
use crate::programs::{FunctionMeta, ProcedureMeta, TriggerEvent, TriggerMeta, TriggerTiming};
use crate::text::{eq_ignore_ascii_case, eq_ignore_case_seq};
use crate::executor::push_str;
use crate::privileges::join;
use crate::results::{is_rows, lemma_rows_view_push, lemma_texts_push, rows_view, QueryResult, Row};
use crate::text::{
    decimal, owned, spec_to_lowercase, spec_to_uppercase, str_chars, string_from_chars,
    to_uppercase, trim_seq, u64_to_string,
};
use crate::types::column_type_display;

verus! {

/// The schema sessions start in.
pub const DEFAULT_SCHEMA: &'static str = "rusql";

/// The character set reported for schemas and views.
pub const DEFAULT_CHARSET: &'static str = "utf8mb4";

/// The collation reported for schemas, columns and views.
pub const DEFAULT_COLLATION: &'static str = "utf8mb4_unicode_ci";

/// The texts of `parts` joined by `sep`.
pub fn join_texts(parts: &Vec<String>, sep: &str) -> (r: String)
    ensures
        r@ == join(texts(parts@), sep@),
{
    let mut out: Vec<char> = Vec::new();
    let mut i: usize = 0;
    while i < parts.len()
        invariant
            i <= parts@.len(),
            out@ == join(texts(parts@).take(i as int), sep@),
        decreases parts@.len() - i,
    {
        let ghost before = out@;
        if i > 0 {
            push_str(&mut out, sep);
        }
        push_str(&mut out, parts[i].as_str());
        proof {
            let t = texts(parts@).take(i + 1);
            assert(t.drop_last() =~= texts(parts@).take(i as int));
            if i == 0 {
                assert(out@ =~= t[0]);
            } else {
                assert(out@ =~= join(t.drop_last(), sep@) + sep@ + t.last());
            }
        }
        i = i + 1;
    }
    proof {
        assert(texts(parts@).take(i as int) =~= texts(parts@));
    }
    string_from_chars(out.as_slice())
}

/// `DESCRIBE` column names.
pub open spec fn describe_columns() -> Seq<Seq<char>> {
    seq!["Field"@, "Type"@, "Null"@, "Key"@, "Default"@, "Extra"@]
}

/// The `DESCRIBE` row of a column.
pub open spec fn describe_row(c: ColumnDef) -> Seq<Seq<char>> {
    seq![
        c.name@,
        spec_to_lowercase(trim_seq(c.data_type@)),
        if c.nullable { "YES"@ } else { "NO"@ },
        if c.primary_key { "PRI"@ } else { ""@ },
        "NULL"@,
        if c.auto_increment { "auto_increment"@ } else { ""@ },
    ]
}

/// `DESCRIBE` / `SHOW COLUMNS` of a table: one row per column, in order.
pub fn describe_table(meta: &TableMeta) -> (r: QueryResult)
    ensures
        is_rows(
            r,
            describe_columns(),
            Seq::new(meta.columns@.len(), |i: int| describe_row(meta.columns@[i])),
        ),
{
    let mut rows: Vec<Row> = Vec::new();
    let mut i: usize = 0;
    while i < meta.columns.len()
        invariant
            i <= meta.columns@.len(),
            rows_view(rows@) == Seq::new(i as nat, |k: int| describe_row(meta.columns@[k])),
        decreases meta.columns@.len() - i,
    {
        let c = &meta.columns[i];
        let mut row: Row = Vec::new();
        row.push(owned(c.name.as_str()));
        row.push(column_type_display(c.data_type.as_str()));
        row.push(owned(if c.nullable { "YES" } else { "NO" }));
        row.push(owned(if c.primary_key { "PRI" } else { "" }));
        row.push(owned("NULL"));
        row.push(owned(if c.auto_increment { "auto_increment" } else { "" }));
        proof {
            assert(texts(row@) =~= describe_row(*c));
        }
        proof {
            lemma_rows_view_push(rows@, row);
        }
        rows.push(row);
        i = i + 1;
        proof {
            assert(rows_view(rows@) =~= Seq::new(i as nat, |k: int| describe_row(meta.columns@[k])));
        }
    }
    let mut columns: Vec<String> = Vec::new();
    columns.push(owned("Field"));
    columns.push(owned("Type"));
    columns.push(owned("Null"));
    columns.push(owned("Key"));
    columns.push(owned("Default"));
    columns.push(owned("Extra"));
    proof {
        assert(texts(columns@) =~= describe_columns());
    }
    QueryResult::Rows { columns, rows }
}

/// `s` when `b` holds, else nothing.
pub open spec fn when(b: bool, s: Seq<char>) -> Seq<char> {
    if b {
        s
    } else {
        Seq::empty()
    }
}

/// The definition of a column in `SHOW CREATE TABLE`.
pub open spec fn column_definition(c: ColumnDef) -> Seq<char> {
    "`"@ + c.name@ + "` "@ + spec_to_uppercase(c.data_type@) + when(!c.nullable, " NOT NULL"@)
        + when(c.auto_increment, " AUTO_INCREMENT"@) + when(c.primary_key, " PRIMARY KEY"@)
}

/// The `CREATE TABLE` statement reconstructed from a table's metadata.
pub open spec fn create_table_text(meta: TableMeta) -> Seq<char> {
    "CREATE TABLE `"@ + meta.name@ + "` ("@ + join(
        Seq::new(meta.columns@.len(), |i: int| column_definition(meta.columns@[i])),
        ", "@,
    ) + ")"@ + match meta.auto_increment_next {
        Some(n) => " AUTO_INCREMENT="@ + decimal(n as nat),
        None => Seq::empty(),
    }
}

/// `SHOW CREATE TABLE`: the table's name and its reconstructed `CREATE TABLE`.
pub fn show_create_table(meta: &TableMeta) -> (r: QueryResult)
    ensures
        is_rows(
            r,
            seq!["Table"@, "Create Table"@],
            seq![seq![meta.name@, create_table_text(*meta)]],
        ),
{
    let mut defs: Vec<String> = Vec::new();
    let mut i: usize = 0;
    while i < meta.columns.len()
        invariant
            i <= meta.columns@.len(),
            texts(defs@) == Seq::new(i as nat, |k: int| column_definition(meta.columns@[k])),
        decreases meta.columns@.len() - i,
    {
        let c = &meta.columns[i];
        let mut def: Vec<char> = Vec::new();
        push_str(&mut def, "`");
        push_str(&mut def, c.name.as_str());
        push_str(&mut def, "` ");
        let upper = to_uppercase(c.data_type.as_str());
        push_str(&mut def, upper.as_str());
        let ghost head = def@;
        if !c.nullable {
            push_str(&mut def, " NOT NULL");
        }
        proof {
            assert(def@ =~= head + when(!c.nullable, " NOT NULL"@));
        }
        let ghost head = def@;
        if c.auto_increment {
            push_str(&mut def, " AUTO_INCREMENT");
        }
        proof {
            assert(def@ =~= head + when(c.auto_increment, " AUTO_INCREMENT"@));
        }
        let ghost head = def@;
        if c.primary_key {
            push_str(&mut def, " PRIMARY KEY");
        }
        proof {
            assert(def@ =~= head + when(c.primary_key, " PRIMARY KEY"@));
            assert(def@ =~= column_definition(*c));
        }
        let d = string_from_chars(def.as_slice());
        proof {
            lemma_texts_push(defs@, d);
        }
        defs.push(d);
        i = i + 1;
        proof {
            assert(texts(defs@) =~= Seq::new(i as nat, |k: int| column_definition(meta.columns@[k])));
        }
    }
    let joined = join_texts(&defs, ", ");
    let mut ddl: Vec<char> = Vec::new();
    push_str(&mut ddl, "CREATE TABLE `");
    push_str(&mut ddl, meta.name.as_str());
    push_str(&mut ddl, "` (");
    push_str(&mut ddl, joined.as_str());
    push_str(&mut ddl, ")");
    let ghost head = ddl@;
    match meta.auto_increment_next {
        Some(n) => {
            push_str(&mut ddl, " AUTO_INCREMENT=");
            let digits = u64_to_string(n);
            push_str(&mut ddl, digits.as_str());
            proof {
                assert(ddl@ =~= head + (" AUTO_INCREMENT="@ + decimal(n as nat)));
            }
        },
        None => {
            proof {
                assert(ddl@ =~= head + Seq::<char>::empty());
            }
        },
    }
    proof {
        assert(ddl@ =~= create_table_text(*meta));
    }
    let mut row: Row = Vec::new();
    row.push(owned(meta.name.as_str()));
    row.push(string_from_chars(ddl.as_slice()));
    let mut rows: Vec<Row> = Vec::new();
    proof {
        assert(texts(row@) =~= seq![meta.name@, create_table_text(*meta)]);
        lemma_rows_view_push(rows@, row);
    }
    rows.push(row);
    let mut columns: Vec<String> = Vec::new();
    columns.push(owned("Table"));
    columns.push(owned("Create Table"));
    proof {
        assert(texts(columns@) =~= seq!["Table"@, "Create Table"@]);
        assert(rows_view(rows@) =~= seq![seq![meta.name@, create_table_text(*meta)]]);
    }
    QueryResult::Rows { columns, rows }
}

/// The part of a storage key after its last `.` (all of it when there is none).
pub open spec fn after_last_dot(s: Seq<char>) -> Seq<char>
    decreases s.len(),
{
    if s.len() == 0 {
        s
    } else if s.last() == '.' {
        Seq::empty()
    } else {
        after_last_dot(s.drop_last()).push(s.last())
    }
}

/// `s` with each backtick doubled, as in a quoted identifier.
pub open spec fn double_backticks(s: Seq<char>) -> Seq<char>
    decreases s.len(),
{
    if s.len() == 0 {
        s
    } else if s.last() == '`' {
        double_backticks(s.drop_last()) + seq!['`', '`']
    } else {
        double_backticks(s.drop_last()).push(s.last())
    }
}

/// The name a view is shown under: its storage key after the last `.`.
fn view_display_name(storage_key: &str) -> (r: Vec<char>)
    ensures
        r@ == after_last_dot(storage_key@),
{
    let v = str_chars(storage_key);
    let mut start = v.len();
    proof {
        assert(v@.take(v@.len() as int) =~= v@);
        assert(v@.skip(v@.len() as int) =~= Seq::<char>::empty());
        assert(after_last_dot(v@) =~= after_last_dot(v@.take(start as int)) + v@.skip(start as int));
    }
    while start > 0 && v[start - 1] != '.'
        invariant
            start <= v@.len(),
            after_last_dot(v@) == after_last_dot(v@.take(start as int)) + v@.skip(start as int),
        decreases start,
    {
        proof {
            let t = v@.take(start as int);
            assert(t.drop_last() =~= v@.take(start - 1));
            assert(v@.skip(start - 1) =~= seq![t.last()] + v@.skip(start as int));
            assert(after_last_dot(t) =~= after_last_dot(t.drop_last()).push(t.last()));
        }
        start = start - 1;
        proof {
            assert(after_last_dot(v@.take(start as int)).push(v@[start as int]) + v@.skip(start + 1)
                =~= after_last_dot(v@.take(start as int)) + v@.skip(start as int));
        }
    }
    proof {
        if start > 0 {
            assert(v@.take(start as int).last() == '.');
        }
        assert(after_last_dot(v@.take(start as int)) =~= Seq::<char>::empty());
        assert(v@.take(v@.len() as int) =~= v@);
    }
    let mut out: Vec<char> = Vec::new();
    let mut i = start;
    while i < v.len()
        invariant
            start <= i <= v@.len(),
            out@ == v@.subrange(start as int, i as int),
        decreases v@.len() - i,
    {
        out.push(v[i]);
        i = i + 1;
        proof {
            assert(out@ =~= v@.subrange(start as int, i as int));
        }
    }
    proof {
        assert(v@.skip(start as int) =~= v@.subrange(start as int, v@.len() as int));
    }
    out
}

/// The `CREATE VIEW` statement shown for a view.
pub open spec fn create_view_text(meta: ViewMeta) -> Seq<char> {
    "CREATE VIEW `"@ + double_backticks(after_last_dot(meta.name@)) + "` AS "@ + meta.sql@
}

/// `SHOW CREATE VIEW`: the view's name, its `CREATE VIEW` (rebuilt from the stored `SELECT`,
/// without algorithm, definer or security), the character set and the collation.
pub fn show_create_view(meta: &ViewMeta) -> (r: QueryResult)
    ensures
        is_rows(
            r,
            seq!["View"@, "Create View"@, "character_set_client"@, "collation_connection"@],
            seq![
                seq![
                    after_last_dot(meta.name@),
                    create_view_text(*meta),
                    DEFAULT_CHARSET@,
                    DEFAULT_COLLATION@,
                ],
            ],
        ),
{
    let display = view_display_name(meta.name.as_str());
    let mut ident: Vec<char> = Vec::new();
    let mut i: usize = 0;
    while i < display.len()
        invariant
            i <= display@.len(),
            ident@ == double_backticks(display@.take(i as int)),
        decreases display@.len() - i,
    {
        proof {
            assert(display@.take(i + 1).drop_last() =~= display@.take(i as int));
        }
        if display[i] == '`' {
            ident.push('`');
            ident.push('`');
            proof {
                assert(ident@ =~= double_backticks(display@.take(i as int)) + seq!['`', '`']);
            }
        } else {
            ident.push(display[i]);
        }
        i = i + 1;
    }
    proof {
        assert(display@.take(i as int) =~= display@);
    }
    let mut ddl: Vec<char> = Vec::new();
    push_str(&mut ddl, "CREATE VIEW `");
    let ident_text = string_from_chars(ident.as_slice());
    push_str(&mut ddl, ident_text.as_str());
    push_str(&mut ddl, "` AS ");
    push_str(&mut ddl, meta.sql.as_str());
    proof {
        assert(ddl@ =~= create_view_text(*meta));
    }
    let mut row: Row = Vec::new();
    row.push(string_from_chars(display.as_slice()));
    row.push(string_from_chars(ddl.as_slice()));
    row.push(owned(DEFAULT_CHARSET));
    row.push(owned(DEFAULT_COLLATION));
    let mut rows: Vec<Row> = Vec::new();
    proof {
        assert(texts(row@) =~= seq![
            after_last_dot(meta.name@),
            create_view_text(*meta),
            DEFAULT_CHARSET@,
            DEFAULT_COLLATION@,
        ]);
        lemma_rows_view_push(rows@, row);
    }
    rows.push(row);
    let mut columns: Vec<String> = Vec::new();
    columns.push(owned("View"));
    columns.push(owned("Create View"));
    columns.push(owned("character_set_client"));
    columns.push(owned("collation_connection"));
    proof {
        assert(texts(columns@) =~= seq![
            "View"@,
            "Create View"@,
            "character_set_client"@,
            "collation_connection"@,
        ]);
        assert(rows_view(rows@) =~= seq![
            seq![
                after_last_dot(meta.name@),
                create_view_text(*meta),
                DEFAULT_CHARSET@,
                DEFAULT_COLLATION@,
            ],
        ]);
    }
    QueryResult::Rows { columns, rows }
}

/// `information_schema.SCHEMATA`: one row per schema, in order, with the default character
/// set and collation.
pub fn scan_information_schema_schemata(schemas: &[String]) -> (r: QueryResult)
    ensures
        is_rows(
            r,
            seq!["SCHEMA_NAME"@, "DEFAULT_CHARACTER_SET_NAME"@, "DEFAULT_COLLATION_NAME"@],
            Seq::new(
                schemas@.len(),
                |i: int| seq![schemas@[i]@, DEFAULT_CHARSET@, DEFAULT_COLLATION@],
            ),
        ),
{
    let mut rows: Vec<Row> = Vec::new();
    let mut i: usize = 0;
    while i < schemas.len()
        invariant
            i <= schemas@.len(),
            rows_view(rows@) == Seq::new(
                i as nat,
                |k: int| seq![schemas@[k]@, DEFAULT_CHARSET@, DEFAULT_COLLATION@],
            ),
        decreases schemas@.len() - i,
    {
        let mut row: Row = Vec::new();
        row.push(owned(schemas[i].as_str()));
        row.push(owned(DEFAULT_CHARSET));
        row.push(owned(DEFAULT_COLLATION));
        proof {
            assert(texts(row@) =~= seq![schemas@[i as int]@, DEFAULT_CHARSET@, DEFAULT_COLLATION@]);
        }
        proof {
            lemma_rows_view_push(rows@, row);
        }
        rows.push(row);
        i = i + 1;
        proof {
            assert(rows_view(rows@) =~= Seq::new(
                i as nat,
                |k: int| seq![schemas@[k]@, DEFAULT_CHARSET@, DEFAULT_COLLATION@],
            ));
        }
    }
    let mut columns: Vec<String> = Vec::new();
    columns.push(owned("SCHEMA_NAME"));
    columns.push(owned("DEFAULT_CHARACTER_SET_NAME"));
    columns.push(owned("DEFAULT_COLLATION_NAME"));
    proof {
        assert(texts(columns@) =~= seq![
            "SCHEMA_NAME"@,
            "DEFAULT_CHARACTER_SET_NAME"@,
            "DEFAULT_COLLATION_NAME"@,
        ]);
    }
    QueryResult::Rows { columns, rows }
}


/// The name of a collation.
pub open spec fn collation_name(c: Collation) -> Seq<char> {
    match c {
        Collation::Utf8Mb4_0900AiCi => "utf8mb4_0900_ai_ci"@,
        Collation::Utf8Mb4UnicodeCi => "utf8mb4_unicode_ci"@,
    }
}

/// The `SHOW COLLATION` row of the `i`-th supported collation.
pub open spec fn collation_row(i: nat, c: Collation) -> Seq<Seq<char>> {
    seq![
        collation_name(c),
        "utf8mb4"@,
        decimal(i + 1),
        if c == crate::collation::DEFAULT_COLLATION { "Yes"@ } else { ""@ },
        "Yes"@,
        "8"@,
        "PAD SPACE"@,
    ]
}

/// The rows whose first cell is `filter` in any ASCII case (all rows without a filter).
pub open spec fn keep_named(rows: Seq<Seq<Seq<char>>>, filter: Option<Seq<char>>) -> Seq<Seq<Seq<char>>>
    decreases rows.len(),
{
    if rows.len() == 0 {
        rows
    } else {
        let rest = keep_named(rows.drop_last(), filter);
        let keep = match filter {
            Some(f) => eq_ignore_case_seq(rows.last()[0], f),
            None => true,
        };
        if keep {
            rest.push(rows.last())
        } else {
            rest
        }
    }
}

/// `SHOW COLLATION` column names.
pub open spec fn collation_columns() -> Seq<Seq<char>> {
    seq!["Collation"@, "Charset"@, "Id"@, "Default"@, "Compiled"@, "Sortlen"@, "Pad_attribute"@]
}

/// `SHOW COLLATION [LIKE name]`: the supported collations, numbered from 1, the default one
/// marked, kept to those named `filter` (any ASCII case) when there is one.
pub fn show_collation(filter: Option<&str>) -> (r: QueryResult)
    ensures
        is_rows(
            r,
            collation_columns(),
            keep_named(
                seq![
                    collation_row(0, Collation::Utf8Mb4_0900AiCi),
                    collation_row(1, Collation::Utf8Mb4UnicodeCi),
                ],
                match filter {
                    Some(f) => Some(f@),
                    None => None,
                },
            ),
        ),
{
    let supported = Collation::supported();
    let ghost all = Seq::new(
        supported@.len(),
        |i: int| collation_row(i as nat, supported@[i]),
    );
    let ghost fv = match filter {
        Some(f) => Some(f@),
        None => None,
    };
    let mut rows: Vec<Row> = Vec::new();
    let mut i: usize = 0;
    proof {
        assert(all.take(0) =~= Seq::<Seq<Seq<char>>>::empty());
    }
    while i < supported.len()
        invariant
            i <= supported@.len(),
            supported@.len() == 2,
            all == Seq::new(supported@.len(), |i: int| collation_row(i as nat, supported@[i])),
            fv == match filter {
                Some(f) => Some(f@),
                None => None,
            },
            rows_view(rows@) == keep_named(all.take(i as int), fv),
        decreases supported@.len() - i,
    {
        let c = supported[i];
        let mut row: Row = Vec::new();
        row.push(owned(c.name()));
        row.push(owned(c.charset()));
        row.push(u64_to_string(i as u64 + 1));
        row.push(owned(
            match c {
                Collation::Utf8Mb4UnicodeCi => "Yes",
                _ => "",
            },
        ));
        row.push(owned("Yes"));
        row.push(owned("8"));
        row.push(owned("PAD SPACE"));
        proof {
            assert(texts(row@) =~= collation_row(i as nat, c));
            assert(all.take(i + 1).drop_last() =~= all.take(i as int));
        }
        let keep = match filter {
            Some(f) => eq_ignore_ascii_case(row[0].as_str(), f),
            None => true,
        };
        if keep {
            proof {
                lemma_rows_view_push(rows@, row);
            }
            rows.push(row);
        }
        i = i + 1;
    }
    proof {
        assert(all.take(2) =~= all);
        assert(all =~= seq![
            collation_row(0, Collation::Utf8Mb4_0900AiCi),
            collation_row(1, Collation::Utf8Mb4UnicodeCi),
        ]);
    }
    let mut columns: Vec<String> = Vec::new();
    columns.push(owned("Collation"));
    columns.push(owned("Charset"));
    columns.push(owned("Id"));
    columns.push(owned("Default"));
    columns.push(owned("Compiled"));
    columns.push(owned("Sortlen"));
    columns.push(owned("Pad_attribute"));
    proof {
        assert(texts(columns@) =~= collation_columns());
    }
    QueryResult::Rows { columns, rows }
}

/// `DESCRIBE` of the table under a storage key, or the storage error for a missing one.
pub fn describe_table_by_name(session: &Session, table: &str) -> (r: Result<QueryResult, ExecError>)
    ensures
        match session.catalog.tables_view().get(table@) {
            Some(meta) => r matches Ok(q) && is_rows(
                q,
                describe_columns(),
                Seq::new(meta.columns@.len(), |i: int| describe_row(meta.columns@[i])),
            ),
            None => r matches Err(ExecError::Storage(StorageError::TableNotFound(n))) && n@ == table@,
        },
{
    match session.catalog.get_table(table) {
        Some(meta) => Ok(describe_table(meta)),
        None => Err(ExecError::Storage(StorageError::TableNotFound(owned(table)))),
    }
}

/// `SHOW CREATE TABLE` of the table under a storage key, or the storage error for a missing
/// one.
pub fn show_create_table_by_name(session: &Session, table: &str) -> (r: Result<QueryResult, ExecError>)
    ensures
        match session.catalog.tables_view().get(table@) {
            Some(meta) => r matches Ok(q) && is_rows(
                q,
                seq!["Table"@, "Create Table"@],
                seq![seq![meta.name@, create_table_text(meta)]],
            ),
            None => r matches Err(ExecError::Storage(StorageError::TableNotFound(n))) && n@ == table@,
        },
{
    match session.catalog.get_table(table) {
        Some(meta) => Ok(show_create_table(meta)),
        None => Err(ExecError::Storage(StorageError::TableNotFound(owned(table)))),
    }
}

/// `SHOW CREATE VIEW` of a view, or the storage error for a missing one.
pub fn show_create_view_by_name(session: &Session, view: &str) -> (r: Result<QueryResult, ExecError>)
    ensures
        match session.catalog.views_view().get(view@) {
            Some(meta) => r matches Ok(q) && is_rows(
                q,
                seq!["View"@, "Create View"@, "character_set_client"@, "collation_connection"@],
                seq![
                    seq![
                        after_last_dot(meta.name@),
                        create_view_text(meta),
                        DEFAULT_CHARSET@,
                        DEFAULT_COLLATION@,
                    ],
                ],
            ),
            None => r matches Err(ExecError::Storage(StorageError::TableNotFound(n))) && n@ == view@,
        },
{
    match session.catalog.get_view(view) {
        Some(meta) => Ok(show_create_view(meta)),
        None => Err(ExecError::Storage(StorageError::TableNotFound(owned(view)))),
    }
}

/// `SHOW PROCESSLIST` column names.
pub open spec fn processlist_columns() -> Seq<Seq<char>> {
    seq!["Id"@, "User"@, "Host"@, "db"@, "Command"@, "Time"@, "State"@, "Info"@]
}

/// The `SHOW PROCESSLIST` row of a connection.
pub open spec fn process_row(
    r: (u64, Seq<char>, Seq<char>, Seq<char>, Seq<char>, u64, Seq<char>, Option<Seq<char>>),
) -> Seq<Seq<char>> {
    seq![
        decimal(r.0 as nat),
        r.1,
        r.2,
        r.3,
        r.4,
        decimal(r.5 as nat),
        r.6,
        match r.7 {
            Some(s) => s,
            None => Seq::empty(),
        },
    ]
}

/// The rows of the connections `conns` in increasing id order at time `now`.
pub open spec fn process_rows(conns: Map<u64, ConnView>, now: u64, rows: Seq<Seq<Seq<char>>>) -> bool {
    exists|ids: Seq<u64>|
        #![trigger ids.len()]
        (forall|i: int, j: int| 0 <= i < j < ids.len() ==> ids[i] < ids[j]) && ids.to_set()
            == conns.dom() && rows == Seq::new(
            ids.len(),
            |i: int| process_row(row_of(ids[i], conns[ids[i]], now)),
        )
}

/// `SHOW PROCESSLIST` at time `now` (nanoseconds): one row per connection of the session's
/// registry, in increasing id order; an error when the session has no registry.
pub fn show_processlist(session: &Session, now: u64) -> (r: Result<QueryResult, ExecError>)
    ensures
        match &session.process_list {
            None => r matches Err(ExecError::Message(m)) && m@ == "process list unavailable"@,
            Some(reg) => r matches Ok(q) && q matches QueryResult::Rows { columns, rows }
                && texts(columns@) == processlist_columns() && process_rows(
                (**reg)@,
                now,
                rows_view(rows@),
            ),
        },
{
    let reg = match &session.process_list {
        None => {
            return Err(ExecError::Message(owned("process list unavailable")));
        },
        Some(reg) => reg,
    };
    let snap = reg.snapshot(now);
    let ghost want = Seq::new(snap@.len(), |i: int| process_row(crate::processlist::row_view(snap@[i])));
    let mut rows: Vec<Row> = Vec::new();
    let mut i: usize = 0;
    while i < snap.len()
        invariant
            i <= snap@.len(),
            want == Seq::new(snap@.len(), |i: int| process_row(crate::processlist::row_view(snap@[i]))),
            rows_view(rows@) == want.take(i as int),
        decreases snap@.len() - i,
    {
        let p = &snap[i];
        let mut row: Row = Vec::new();
        row.push(u64_to_string(p.id));
        row.push(owned(p.user.as_str()));
        row.push(owned(p.host.as_str()));
        row.push(owned(p.db.as_str()));
        row.push(owned(p.command.as_str()));
        row.push(u64_to_string(p.time));
        row.push(owned(p.state.as_str()));
        match &p.info {
            Some(s) => row.push(owned(s.as_str())),
            None => row.push(String::new()),
        }
        proof {
            assert(texts(row@) =~= want[i as int]);
            lemma_rows_view_push(rows@, row);
        }
        rows.push(row);
        i = i + 1;
        proof {
            assert(rows_view(rows@) =~= want.take(i as int));
        }
    }
    proof {
        assert(want.take(i as int) =~= want);
        let ids = Seq::new(snap@.len(), |i: int| snap@[i].id);
        let m = (**reg)@;
        assert forall|k: u64| ids.to_set().contains(k) <==> m.dom().contains(k) by {
            if m.dom().contains(k) {
                let t = choose|t: int| 0 <= t < snap@.len() && snap@[t].id == k;
                assert(ids[t] == k);
            }
        }
        assert(ids.to_set() =~= m.dom());
        assert(rows_view(rows@) =~= Seq::new(
            ids.len(),
            |i: int| process_row(row_of(ids[i], m[ids[i]], now)),
        ));
        assert(ids.len() == snap@.len());
    }
    let mut columns: Vec<String> = Vec::new();
    columns.push(owned("Id"));
    columns.push(owned("User"));
    columns.push(owned("Host"));
    columns.push(owned("db"));
    columns.push(owned("Command"));
    columns.push(owned("Time"));
    columns.push(owned("State"));
    columns.push(owned("Info"));
    proof {
        assert(texts(columns@) =~= processlist_columns());
    }
    Ok(QueryResult::Rows { columns, rows })
}

/// `SHOW GRANTS FOR user@host`: one single-cell row per grant line, in code-point order, under
/// the column `Grants for user@host`.
pub fn show_grants_result(store: &PrivilegeStore, user: &str, host: &str) -> (r: Result<QueryResult, ExecError>)
    ensures
        r matches Ok(q) && q matches QueryResult::Rows { columns, rows } && texts(columns@)
            == seq!["Grants for "@ + user@ + "@"@ + host@] && (exists|lines: Seq<Seq<char>>|
            #![trigger lines.len()]
            texts_sorted(lines) && lines.to_multiset() == show_grants_lines(
                store@.0,
                user@,
                host@,
            ).to_multiset() && rows_view(rows@) == Seq::new(lines.len(), |i: int| seq![lines[i]])),
{
    let account = Account::new(user, host);
    let mut column: Vec<char> = Vec::new();
    push_str(&mut column, "Grants for ");
    push_str(&mut column, account.user.as_str());
    push_str(&mut column, "@");
    push_str(&mut column, account.host.as_str());
    let lines = store.show_grants(&account);
    let ghost lv = texts_of(lines@);
    let mut rows: Vec<Row> = Vec::new();
    let mut i: usize = 0;
    while i < lines.len()
        invariant
            i <= lines@.len(),
            lv == texts_of(lines@),
            rows_view(rows@) == Seq::new(i as nat, |k: int| seq![lv[k]]),
        decreases lines@.len() - i,
    {
        let mut row: Row = Vec::new();
        row.push(owned(lines[i].as_str()));
        proof {
            assert(texts(row@) =~= seq![lv[i as int]]);
            lemma_rows_view_push(rows@, row);
        }
        rows.push(row);
        i = i + 1;
        proof {
            assert(rows_view(rows@) =~= Seq::new(i as nat, |k: int| seq![lv[k]]));
        }
    }
    let mut columns: Vec<String> = Vec::new();
    columns.push(string_from_chars(column.as_slice()));
    proof {
        assert(texts(columns@) =~= seq!["Grants for "@ + user@ + "@"@ + host@]);
        assert(lv.len() == lines@.len());
    }
    Ok(QueryResult::Rows { columns, rows })
}

/// The `mysql.user` rows: user, host and privilege list of each account with grants, in
/// (user, host) order.
pub fn mysql_user_stub_rows(store: &PrivilegeStore) -> (r: QueryResult)
    ensures
        r matches QueryResult::Rows { columns, rows } && texts(columns@) == seq![
            "User"@,
            "Host"@,
            "privileges"@,
        ] && (exists|us: Seq<UserRow>|
            #![trigger us.len()]
            rows_sorted(us) && us.to_multiset() == group_rows(account_groups(store@.0)).to_multiset()
                && rows_view(rows@) == Seq::new(us.len(), |i: int| seq![us[i].0, us[i].1, us[i].2])),
{
    let found = store.mysql_user_rows();
    let ghost us = rows_of(found@);
    let mut rows: Vec<Row> = Vec::new();
    let mut i: usize = 0;
    while i < found.len()
        invariant
            i <= found@.len(),
            us == rows_of(found@),
            rows_view(rows@) == Seq::new(i as nat, |k: int| seq![us[k].0, us[k].1, us[k].2]),
        decreases found@.len() - i,
    {
        let mut row: Row = Vec::new();
        row.push(owned(found[i].0.as_str()));
        row.push(owned(found[i].1.as_str()));
        row.push(owned(found[i].2.as_str()));
        proof {
            assert(texts(row@) =~= seq![us[i as int].0, us[i as int].1, us[i as int].2]);
            lemma_rows_view_push(rows@, row);
        }
        rows.push(row);
        i = i + 1;
        proof {
            assert(rows_view(rows@) =~= Seq::new(i as nat, |k: int| seq![us[k].0, us[k].1, us[k].2]));
        }
    }
    let mut columns: Vec<String> = Vec::new();
    columns.push(owned("User"));
    columns.push(owned("Host"));
    columns.push(owned("privileges"));
    proof {
        assert(texts(columns@) =~= seq!["User"@, "Host"@, "privileges"@]);
        assert(us.len() == found@.len());
    }
    QueryResult::Rows { columns, rows }
}


/// `vals` holds the values of `m`, one for each key, in some order.
pub open spec fn lists_values<V>(m: Map<Seq<char>, V>, vals: Seq<V>) -> bool {
    exists|ks: Seq<Seq<char>>|
        #![trigger ks.len()]
        ks.no_duplicates() && ks.to_set() == m.dom() && ks.len() == vals.len() && forall|i: int|
            0 <= i < vals.len() ==> vals[i] == #[trigger] m[ks[i]]
}

/// `information_schema.VIEWS` column names.
pub open spec fn views_columns() -> Seq<Seq<char>> {
    seq!["TABLE_SCHEMA"@, "TABLE_NAME"@, "VIEW_DEFINITION"@]
}

/// `information_schema.VIEWS`: one row per view, in name order: the session's schema, the
/// view's name and its `SELECT`.
pub fn scan_information_schema_views(session: &Session) -> (r: QueryResult)
    ensures
        exists|ks: Seq<Seq<char>>|
            #![trigger ks.len()]
            ks.no_duplicates() && ks.to_set() == session.catalog.views_view().dom() && texts_sorted(
                ks,
            ) && is_rows(
                r,
                views_columns(),
                Seq::new(
                    ks.len(),
                    |i: int|
                        seq![
                        session.database@,
                        session.catalog.views_view()[ks[i]].name@,
                        session.catalog.views_view()[ks[i]].sql@,
                    ],
                ),
            ),
{
    let ghost vv = session.catalog.views_view();
    let names = session.catalog.view_names();
    let sorted = sort_strings(names);
    let ghost ks = texts_of(sorted@);
    proof {
        assert(texts_of(names@) =~= texts(names@));
        lemma_permutation_distinct(texts_of(names@), ks);
    }
    let mut rows: Vec<Row> = Vec::new();
    let mut i: usize = 0;
    while i < sorted.len()
        invariant
            i <= sorted@.len(),
            ks == texts_of(sorted@),
            vv == session.catalog.views_view(),
            ks.to_set() == vv.dom(),
            rows_view(rows@) == Seq::new(
                i as nat,
                |k: int| seq![session.database@, vv[ks[k]].name@, vv[ks[k]].sql@],
            ),
        decreases sorted@.len() - i,
    {
        proof {
            assert(ks.to_set().contains(ks[i as int]));
        }
        match session.catalog.get_view(sorted[i].as_str()) {
            Some(view) => {
                let mut row: Row = Vec::new();
                row.push(owned(session.database.as_str()));
                row.push(owned(view.name.as_str()));
                row.push(owned(view.sql.as_str()));
                proof {
                    assert(texts(row@) =~= seq![
                        session.database@,
                        vv[ks[i as int]].name@,
                        vv[ks[i as int]].sql@,
                    ]);
                    lemma_rows_view_push(rows@, row);
                }
                rows.push(row);
            },
            None => {},
        }
        i = i + 1;
        proof {
            assert(rows_view(rows@) =~= Seq::new(
                i as nat,
                |k: int| seq![session.database@, vv[ks[k]].name@, vv[ks[k]].sql@],
            ));
        }
    }
    let mut columns: Vec<String> = Vec::new();
    columns.push(owned("TABLE_SCHEMA"));
    columns.push(owned("TABLE_NAME"));
    columns.push(owned("VIEW_DEFINITION"));
    proof {
        assert(texts(columns@) =~= views_columns());
        assert(ks.len() == sorted@.len());
    }
    QueryResult::Rows { columns, rows }
}

/// `information_schema.ROUTINES` column names.
pub open spec fn routines_columns() -> Seq<Seq<char>> {
    seq!["ROUTINE_SCHEMA"@, "ROUTINE_NAME"@, "ROUTINE_TYPE"@, "DTD_IDENTIFIER"@]
}

/// The `ROUTINES` row of a procedure.
pub open spec fn procedure_row(p: ProcedureMeta) -> Seq<Seq<char>> {
    seq![p.schema@, p.name@, "PROCEDURE"@, "NULL"@]
}

/// The `ROUTINES` row of a function.
pub open spec fn function_row(f: FunctionMeta) -> Seq<Seq<char>> {
    seq![f.schema@, f.name@, "FUNCTION"@, f.return_type@]
}

/// `information_schema.ROUTINES`: a row per stored procedure, then a row per stored function.
pub fn scan_information_schema_routines(session: &Session) -> (r: QueryResult)
    ensures
        exists|ps: Seq<ProcedureMeta>, fs: Seq<FunctionMeta>|
            #![trigger ps.len(), fs.len()]
            lists_values(session.catalog.procedures_view(), ps) && lists_values(
                session.catalog.functions_view(),
                fs,
            ) && is_rows(
                r,
                routines_columns(),
                Seq::new(ps.len(), |i: int| procedure_row(ps[i])) + Seq::new(
                    fs.len(),
                    |i: int| function_row(fs[i]),
                ),
            ),
{
    let procs = session.catalog.iter_procedures();
    let funcs = session.catalog.iter_functions();
    let ghost ps = Seq::new(procs@.len(), |i: int| *procs@[i]);
    let ghost fs = Seq::new(funcs@.len(), |i: int| *funcs@[i]);
    let ghost want = Seq::new(ps.len(), |i: int| procedure_row(ps[i])) + Seq::new(
        fs.len(),
        |i: int| function_row(fs[i]),
    );
    let mut rows: Vec<Row> = Vec::new();
    let mut i: usize = 0;
    while i < procs.len()
        invariant
            i <= procs@.len(),
            ps == Seq::new(procs@.len(), |i: int| *procs@[i]),
            rows_view(rows@) == Seq::new(i as nat, |k: int| procedure_row(ps[k])),
        decreases procs@.len() - i,
    {
        let p = procs[i];
        let mut row: Row = Vec::new();
        row.push(owned(p.schema.as_str()));
        row.push(owned(p.name.as_str()));
        row.push(owned("PROCEDURE"));
        row.push(owned("NULL"));
        proof {
            assert(texts(row@) =~= procedure_row(ps[i as int]));
            lemma_rows_view_push(rows@, row);
        }
        rows.push(row);
        i = i + 1;
        proof {
            assert(rows_view(rows@) =~= Seq::new(i as nat, |k: int| procedure_row(ps[k])));
        }
    }
    let mut j: usize = 0;
    while j < funcs.len()
        invariant
            j <= funcs@.len(),
            fs == Seq::new(funcs@.len(), |i: int| *funcs@[i]),
            rows_view(rows@) == Seq::new(ps.len(), |k: int| procedure_row(ps[k])) + Seq::new(
                j as nat,
                |k: int| function_row(fs[k]),
            ),
        decreases funcs@.len() - j,
    {
        let f = funcs[j];
        let mut row: Row = Vec::new();
        row.push(owned(f.schema.as_str()));
        row.push(owned(f.name.as_str()));
        row.push(owned("FUNCTION"));
        row.push(owned(f.return_type.as_str()));
        proof {
            assert(texts(row@) =~= function_row(fs[j as int]));
            lemma_rows_view_push(rows@, row);
        }
        rows.push(row);
        j = j + 1;
        proof {
            assert(rows_view(rows@) =~= Seq::new(ps.len(), |k: int| procedure_row(ps[k]))
                + Seq::new(j as nat, |k: int| function_row(fs[k])));
        }
    }
    proof {
        let pks = choose|ks: Seq<Seq<char>>|
            #![auto]
            ks.no_duplicates() && ks.to_set() == session.catalog.procedures_view().dom() && ks.len()
                == procs@.len() && forall|i: int|
                0 <= i < procs@.len() ==> *procs@[i] == session.catalog.procedures_view()[ks[i]];
        assert(pks.len() == ps.len());
        let fks = choose|ks: Seq<Seq<char>>|
            #![auto]
            ks.no_duplicates() && ks.to_set() == session.catalog.functions_view().dom() && ks.len()
                == funcs@.len() && forall|i: int|
                0 <= i < funcs@.len() ==> *funcs@[i] == session.catalog.functions_view()[ks[i]];
        assert(fks.len() == fs.len());
    }
    let mut columns: Vec<String> = Vec::new();
    columns.push(owned("ROUTINE_SCHEMA"));
    columns.push(owned("ROUTINE_NAME"));
    columns.push(owned("ROUTINE_TYPE"));
    columns.push(owned("DTD_IDENTIFIER"));
    proof {
        assert(texts(columns@) =~= routines_columns());
    }
    QueryResult::Rows { columns, rows }
}

/// The statement a trigger fires on, as text.
pub open spec fn event_text(e: TriggerEvent) -> Seq<char> {
    match e {
        TriggerEvent::Insert => "INSERT"@,
        TriggerEvent::Update => "UPDATE"@,
        TriggerEvent::Delete => "DELETE"@,
    }
}

/// When a trigger fires, as text.
pub open spec fn timing_text(t: TriggerTiming) -> Seq<char> {
    match t {
        TriggerTiming::Before => "BEFORE"@,
        TriggerTiming::After => "AFTER"@,
    }
}

/// The `TRIGGERS` row of a trigger: its statements joined by `; `.
pub open spec fn trigger_row(t: TriggerMeta) -> Seq<Seq<char>> {
    seq![
        t.schema@,
        t.name@,
        event_text(t.event),
        t.table@,
        timing_text(t.timing),
        join(texts(t.body@), "; "@),
    ]
}

/// `information_schema.TRIGGERS` column names.
pub open spec fn triggers_columns() -> Seq<Seq<char>> {
    seq![
        "TRIGGER_SCHEMA"@,
        "TRIGGER_NAME"@,
        "EVENT_MANIPULATION"@,
        "EVENT_OBJECT_TABLE"@,
        "ACTION_TIMING"@,
        "ACTION_STATEMENT"@,
    ]
}

/// `information_schema.TRIGGERS`: a row per trigger.
pub fn scan_information_schema_triggers(session: &Session) -> (r: QueryResult)
    ensures
        exists|ts: Seq<TriggerMeta>|
            #![trigger ts.len()]
            lists_values(session.catalog.triggers_view(), ts) && is_rows(
                r,
                triggers_columns(),
                Seq::new(ts.len(), |i: int| trigger_row(ts[i])),
            ),
{
    let trigs = session.catalog.iter_triggers();
    let ghost ts = Seq::new(trigs@.len(), |i: int| *trigs@[i]);
    let mut rows: Vec<Row> = Vec::new();
    let mut i: usize = 0;
    while i < trigs.len()
        invariant
            i <= trigs@.len(),
            ts == Seq::new(trigs@.len(), |i: int| *trigs@[i]),
            rows_view(rows@) == Seq::new(i as nat, |k: int| trigger_row(ts[k])),
        decreases trigs@.len() - i,
    {
        let t = trigs[i];
        let mut row: Row = Vec::new();
        row.push(owned(t.schema.as_str()));
        row.push(owned(t.name.as_str()));
        row.push(owned(
            match t.event {
                TriggerEvent::Insert => "INSERT",
                TriggerEvent::Update => "UPDATE",
                TriggerEvent::Delete => "DELETE",
            },
        ));
        row.push(owned(t.table.as_str()));
        row.push(owned(
            match t.timing {
                TriggerTiming::Before => "BEFORE",
                TriggerTiming::After => "AFTER",
            },
        ));
        row.push(join_texts(&t.body, "; "));
        proof {
            assert(texts(row@) =~= trigger_row(ts[i as int]));
            lemma_rows_view_push(rows@, row);
        }
        rows.push(row);
        i = i + 1;
        proof {
            assert(rows_view(rows@) =~= Seq::new(i as nat, |k: int| trigger_row(ts[k])));
        }
    }
    proof {
        let tks = choose|ks: Seq<Seq<char>>|
            #![auto]
            ks.no_duplicates() && ks.to_set() == session.catalog.triggers_view().dom() && ks.len()
                == trigs@.len() && forall|i: int|
                0 <= i < trigs@.len() ==> *trigs@[i] == session.catalog.triggers_view()[ks[i]];
        assert(tks.len() == ts.len());
    }
    let mut columns: Vec<String> = Vec::new();
    columns.push(owned("TRIGGER_SCHEMA"));
    columns.push(owned("TRIGGER_NAME"));
    columns.push(owned("EVENT_MANIPULATION"));
    columns.push(owned("EVENT_OBJECT_TABLE"));
    columns.push(owned("ACTION_TIMING"));
    columns.push(owned("ACTION_STATEMENT"));
    proof {
        assert(texts(columns@) =~= triggers_columns());
    }
    QueryResult::Rows { columns, rows }
}


/// The text of an optional value, empty when there is none.
pub open spec fn or_empty(v: Option<String>) -> Seq<char> {
    match v {
        Some(s) => s@,
        None => Seq::empty(),
    }
}

/// The text of an optional value, `fallback` when there is none or it is empty.
pub open spec fn or_fallback(v: Option<String>, fallback: Seq<char>) -> Seq<char> {
    match v {
        Some(s) => if s@.len() > 0 {
            s@
        } else {
            fallback
        },
        None => fallback,
    }
}

/// The `EVENTS` row of an event: `root@%` for a missing definer, `NOT PRESERVE` for a missing
/// completion, empty cells for other missing values.
pub open spec fn event_row(e: EventMeta) -> Seq<Seq<char>> {
    seq![
        e.schema@,
        e.name@,
        or_fallback(e.definer, "root@%"@),
        e.schedule_type@,
        or_empty(e.execute_at),
        or_empty(e.interval_value),
        or_empty(e.interval_field),
        or_empty(e.starts),
        or_empty(e.ends),
        e.status@,
        or_fallback(e.on_completion, "NOT PRESERVE"@),
        or_empty(e.last_executed),
        or_empty(e.comment),
    ]
}

/// `information_schema.EVENTS` column names.
pub open spec fn events_columns() -> Seq<Seq<char>> {
    seq![
        "EVENT_SCHEMA"@,
        "EVENT_NAME"@,
        "DEFINER"@,
        "EVENT_TYPE"@,
        "EXECUTE_AT"@,
        "INTERVAL_VALUE"@,
        "INTERVAL_FIELD"@,
        "STARTS"@,
        "ENDS"@,
        "STATUS"@,
        "ON_COMPLETION"@,
        "LAST_EXECUTED"@,
        "EVENT_COMMENT"@,
    ]
}

/// The text of an optional value, or `fallback` when it is missing or empty.
fn text_or(v: &Option<String>, fallback: &str) -> (r: String)
    ensures
        r@ == or_fallback(*v, fallback@),
{
    match v {
        Some(s) => {
            if str_chars(s.as_str()).len() > 0 {
                owned(s.as_str())
            } else {
                owned(fallback)
            }
        },
        None => owned(fallback),
    }
}

/// The text of an optional value, empty when it is missing.
fn text_or_empty(v: &Option<String>) -> (r: String)
    ensures
        r@ == or_empty(*v),
{
    match v {
        Some(s) => owned(s.as_str()),
        None => String::new(),
    }
}

/// The `EVENTS` row of an event.
fn event_info_row(e: &EventMeta) -> (r: Row)
    ensures
        texts(r@) == event_row(*e),
{
    let mut row: Row = Vec::new();
    row.push(owned(e.schema.as_str()));
    row.push(owned(e.name.as_str()));
    row.push(text_or(&e.definer, "root@%"));
    row.push(owned(e.schedule_type.as_str()));
    row.push(text_or_empty(&e.execute_at));
    row.push(text_or_empty(&e.interval_value));
    row.push(text_or_empty(&e.interval_field));
    row.push(text_or_empty(&e.starts));
    row.push(text_or_empty(&e.ends));
    row.push(owned(e.status.as_str()));
    row.push(text_or(&e.on_completion, "NOT PRESERVE"));
    row.push(text_or_empty(&e.last_executed));
    row.push(text_or_empty(&e.comment));
    proof {
        assert(texts(row@) =~= event_row(*e));
    }
    row
}

/// A copy of a row.
pub(crate) fn copy_row(row: &Row) -> (r: Row)
    ensures
        texts(r@) == texts(row@),
{
    let mut out: Row = Vec::new();
    let mut i: usize = 0;
    while i < row.len()
        invariant
            i <= row@.len(),
            texts(out@) == texts(row@).take(i as int),
        decreases row@.len() - i,
    {
        let cell = owned(row[i].as_str());
        proof {
            lemma_texts_push(out@, cell);
        }
        out.push(cell);
        i = i + 1;
        proof {
            assert(texts(out@) =~= texts(row@).take(i as int));
        }
    }
    proof {
        assert(texts(row@).take(i as int) =~= texts(row@));
    }
    out
}

/// `rows` arranged by `order`.
pub(crate) fn arrange(rows: &Vec<Row>, order: &Vec<usize>) -> (r: Vec<Row>)
    requires
        forall|i: int| 0 <= i < order@.len() ==> order@[i] < rows@.len(),
    ensures
        rows_view(r@) == Seq::new(order@.len(), |i: int| rows_view(rows@)[order@[i] as int]),
{
    let mut out: Vec<Row> = Vec::new();
    let mut i: usize = 0;
    while i < order.len()
        invariant
            i <= order@.len(),
            forall|i: int| 0 <= i < order@.len() ==> order@[i] < rows@.len(),
            rows_view(out@) == Seq::new(i as nat, |k: int| rows_view(rows@)[order@[k] as int]),
        decreases order@.len() - i,
    {
        let row = copy_row(&rows[order[i]]);
        proof {
            lemma_rows_view_push(out@, row);
        }
        out.push(row);
        i = i + 1;
        proof {
            assert(rows_view(out@) =~= Seq::new(
                i as nat,
                |k: int| rows_view(rows@)[order@[k] as int],
            ));
        }
    }
    out
}

/// `information_schema.EVENTS`: a row per event, in (schema, name) order.
pub fn scan_information_schema_events(session: &Session) -> (r: QueryResult)
    ensures
        exists|es: Seq<EventMeta>, order: Seq<usize>|
            #![trigger es.len(), order.len()]
            lists_values(session.catalog.events_view(), es) && stable_order(
                Seq::new(es.len(), |i: int| seq![es[i].schema@, es[i].name@]),
                order,
            ) && is_rows(
                r,
                events_columns(),
                Seq::new(es.len(), |i: int| event_row(es[order[i] as int])),
            ),
{
    let events = session.catalog.iter_events();
    let ghost es = Seq::new(events@.len(), |i: int| *events@[i]);
    let mut keys: Vec<Vec<String>> = Vec::new();
    let mut rows: Vec<Row> = Vec::new();
    let mut i: usize = 0;
    while i < events.len()
        invariant
            i <= events@.len(),
            es == Seq::new(events@.len(), |i: int| *events@[i]),
            keys@.len() == i,
            forall|k: int| 0 <= k < i ==> #[trigger] texts_of(keys@[k]@) == seq![es[k].schema@, es[k].name@],
            rows_view(rows@) == Seq::new(i as nat, |k: int| event_row(es[k])),
        decreases events@.len() - i,
    {
        let e = events[i];
        let mut key: Vec<String> = Vec::new();
        key.push(owned(e.schema.as_str()));
        key.push(owned(e.name.as_str()));
        proof {
            assert(texts_of(key@) =~= seq![es[i as int].schema@, es[i as int].name@]);
        }
        keys.push(key);
        let row = event_info_row(e);
        proof {
            lemma_rows_view_push(rows@, row);
        }
        rows.push(row);
        i = i + 1;
        proof {
            assert(rows_view(rows@) =~= Seq::new(i as nat, |k: int| event_row(es[k])));
        }
    }
    let order = stable_sort_order(&keys);
    proof {
        assert(Seq::new(keys@.len(), |k: int| texts_of(keys@[k]@)) =~= Seq::new(
            es.len(),
            |k: int| seq![es[k].schema@, es[k].name@],
        ));
    }
    let sorted = arrange(&rows, &order);
    proof {
        assert(rows_view(sorted@) =~= Seq::new(es.len(), |k: int| event_row(es[order@[k] as int])));
        let eks = choose|ks: Seq<Seq<char>>|
            #![auto]
            ks.no_duplicates() && ks.to_set() == session.catalog.events_view().dom() && ks.len()
                == events@.len() && forall|i: int|
                0 <= i < events@.len() ==> *events@[i] == session.catalog.events_view()[ks[i]];
        assert(eks.len() == es.len());
        assert(order@.len() == es.len());
    }
    let mut columns: Vec<String> = Vec::new();
    columns.push(owned("EVENT_SCHEMA"));
    columns.push(owned("EVENT_NAME"));
    columns.push(owned("DEFINER"));
    columns.push(owned("EVENT_TYPE"));
    columns.push(owned("EXECUTE_AT"));
    columns.push(owned("INTERVAL_VALUE"));
    columns.push(owned("INTERVAL_FIELD"));
    columns.push(owned("STARTS"));
    columns.push(owned("ENDS"));
    columns.push(owned("STATUS"));
    columns.push(owned("ON_COMPLETION"));
    columns.push(owned("LAST_EXECUTED"));
    columns.push(owned("EVENT_COMMENT"));
    proof {
        assert(texts(columns@) =~= events_columns());
    }
    QueryResult::Rows { columns, rows: sorted }
}


/// The name of the `i`-th foreign key of `table`: its own, else `{table}_ibfk_{i + 1}`.
pub open spec fn fk_constraint(fk: ForeignKeyMeta, table: Seq<char>, i: int) -> Seq<char> {
    match fk.name {
        Some(n) => n@,
        None => table + "_ibfk_"@ + decimal((i + 1) as nat),
    }
}

/// The `KEY_COLUMN_USAGE` rows of the `i`-th foreign key of `t`: one per pair of column and
/// referenced column.
pub open spec fn fk_rows(t: TableMeta, i: int) -> Seq<Seq<Seq<char>>> {
    let fk = t.foreign_keys@[i];
    let n = if fk.columns@.len() <= fk.referenced_columns@.len() {
        fk.columns@.len()
    } else {
        fk.referenced_columns@.len()
    };
    Seq::new(
        n,
        |j: int|
            seq![
            t.schema@,
            t.name@,
            fk.columns@[j]@,
            fk_constraint(fk, t.name@, i),
            fk.referenced_schema@,
            fk.referenced_table@,
            fk.referenced_columns@[j]@,
        ],
    )
}

/// The rows of the first `n` foreign keys of `t`.
pub open spec fn table_fk_rows(t: TableMeta, n: int) -> Seq<Seq<Seq<char>>>
    decreases n,
{
    if n <= 0 {
        Seq::empty()
    } else {
        table_fk_rows(t, n - 1) + fk_rows(t, n - 1)
    }
}

/// The rows of the foreign keys of `ts`, table by table.
pub open spec fn tables_fk_rows(ts: Seq<TableMeta>) -> Seq<Seq<Seq<char>>>
    decreases ts.len(),
{
    if ts.len() == 0 {
        Seq::empty()
    } else {
        tables_fk_rows(ts.drop_last()) + table_fk_rows(
            ts.last(),
            ts.last().foreign_keys@.len() as int,
        )
    }
}

/// The order of `KEY_COLUMN_USAGE` rows: schema, table, constraint, then column.
pub open spec fn kcu_key(row: Seq<Seq<char>>) -> Seq<Seq<char>> {
    seq![row[0], row[1], row[3], row[2]]
}

/// `information_schema.KEY_COLUMN_USAGE` column names.
pub open spec fn kcu_columns() -> Seq<Seq<char>> {
    seq![
        "TABLE_SCHEMA"@,
        "TABLE_NAME"@,
        "COLUMN_NAME"@,
        "CONSTRAINT_NAME"@,
        "REFERENCED_TABLE_SCHEMA"@,
        "REFERENCED_TABLE_NAME"@,
        "REFERENCED_COLUMN_NAME"@,
    ]
}

/// `information_schema.KEY_COLUMN_USAGE`: a row per column of each foreign key, ordered by
/// schema, table, constraint name and column (a stable sort).
pub fn scan_information_schema_key_column_usage(session: &Session) -> (r: QueryResult)
    ensures
        exists|ts: Seq<TableMeta>, order: Seq<usize>|
            #![trigger ts.len(), order.len()]
            lists_values(session.catalog.tables_view(), ts) && stable_order(
                Seq::new(tables_fk_rows(ts).len(), |i: int| kcu_key(tables_fk_rows(ts)[i])),
                order,
            ) && is_rows(
                r,
                kcu_columns(),
                Seq::new(tables_fk_rows(ts).len(), |i: int| tables_fk_rows(ts)[order[i] as int]),
            ),
{
    let tables = session.catalog.iter_tables();
    let ghost ts = Seq::new(tables@.len(), |i: int| *tables@[i]);
    let mut keys: Vec<Vec<String>> = Vec::new();
    let mut rows: Vec<Row> = Vec::new();
    let mut ti: usize = 0;
    proof {
        assert(ts.take(0) =~= Seq::<TableMeta>::empty());
    }
    while ti < tables.len()
        invariant
            ti <= tables@.len(),
            ts == Seq::new(tables@.len(), |i: int| *tables@[i]),
            rows_view(rows@) == tables_fk_rows(ts.take(ti as int)),
            keys@.len() == rows@.len(),
            forall|k: int|
                0 <= k < keys@.len() ==> #[trigger] texts_of(keys@[k]@) == kcu_key(
                    rows_view(rows@)[k],
                ),
        decreases tables@.len() - ti,
    {
        let t = tables[ti];
        let ghost base = tables_fk_rows(ts.take(ti as int));
        let mut fi: usize = 0;
        while fi < t.foreign_keys.len()
            invariant
                fi <= t.foreign_keys@.len(),
                rows_view(rows@) == base + table_fk_rows(*t, fi as int),
                keys@.len() == rows@.len(),
                forall|k: int|
                    0 <= k < keys@.len() ==> #[trigger] texts_of(keys@[k]@) == kcu_key(
                        rows_view(rows@)[k],
                    ),
            decreases t.foreign_keys@.len() - fi,
        {
            let fk = &t.foreign_keys[fi];
            let name = fk.constraint_name(t.name.as_str(), fi);
            let n = if fk.columns.len() <= fk.referenced_columns.len() {
                fk.columns.len()
            } else {
                fk.referenced_columns.len()
            };
            let ghost mid = base + table_fk_rows(*t, fi as int);
            let mut j: usize = 0;
            while j < n
                invariant
                    j <= n,
                    n <= fk.columns@.len(),
                    n <= fk.referenced_columns@.len(),
                    n == fk_rows(*t, fi as int).len(),
                    *fk == t.foreign_keys@[fi as int],
                    name@ == fk_constraint(*fk, t.name@, fi as int),
                    rows_view(rows@) == mid + fk_rows(*t, fi as int).take(j as int),
                    keys@.len() == rows@.len(),
                    forall|k: int|
                        0 <= k < keys@.len() ==> #[trigger] texts_of(keys@[k]@) == kcu_key(
                            rows_view(rows@)[k],
                        ),
                decreases n - j,
            {
                let mut row: Row = Vec::new();
                row.push(owned(t.schema.as_str()));
                row.push(owned(t.name.as_str()));
                row.push(owned(fk.columns[j].as_str()));
                row.push(owned(name.as_str()));
                row.push(owned(fk.referenced_schema.as_str()));
                row.push(owned(fk.referenced_table.as_str()));
                row.push(owned(fk.referenced_columns[j].as_str()));
                let mut key: Vec<String> = Vec::new();
                key.push(owned(t.schema.as_str()));
                key.push(owned(t.name.as_str()));
                key.push(owned(name.as_str()));
                key.push(owned(fk.columns[j].as_str()));
                proof {
                    assert(texts(row@) =~= fk_rows(*t, fi as int)[j as int]);
                    assert(texts_of(key@) =~= kcu_key(texts(row@)));
                    lemma_rows_view_push(rows@, row);
                }
                rows.push(row);
                keys.push(key);
                j = j + 1;
                proof {
                    assert(fk_rows(*t, fi as int).take(j as int) =~= fk_rows(*t, fi as int).take(
                        j - 1,
                    ).push(fk_rows(*t, fi as int)[j - 1]));
                    assert(rows_view(rows@) =~= mid + fk_rows(*t, fi as int).take(j as int));
                }
            }
            proof {
                assert(fk_rows(*t, fi as int).take(j as int) =~= fk_rows(*t, fi as int));
                assert(table_fk_rows(*t, fi + 1) == table_fk_rows(*t, fi as int) + fk_rows(
                    *t,
                    fi as int,
                ));
                assert(rows_view(rows@) =~= base + table_fk_rows(*t, fi + 1));
            }
            fi = fi + 1;
        }
        proof {
            assert(ts.take(ti + 1).drop_last() =~= ts.take(ti as int));
            assert(ts.take(ti + 1).last() == *t);
        }
        ti = ti + 1;
    }
    proof {
        assert(ts.take(ti as int) =~= ts);
    }
    let ghost all = tables_fk_rows(ts);
    let order = stable_sort_order(&keys);
    proof {
        assert(Seq::new(keys@.len(), |k: int| texts_of(keys@[k]@)) =~= Seq::new(
            all.len(),
            |k: int| kcu_key(all[k]),
        ));
    }
    let sorted = arrange(&rows, &order);
    proof {
        assert(rows_view(sorted@) =~= Seq::new(all.len(), |k: int| all[order@[k] as int]));
        let tks = choose|ks: Seq<Seq<char>>|
            #![auto]
            ks.no_duplicates() && ks.to_set() == session.catalog.tables_view().dom() && ks.len()
                == tables@.len() && forall|i: int|
                0 <= i < tables@.len() ==> *tables@[i] == session.catalog.tables_view()[ks[i]];
        assert(tks.len() == ts.len());
        assert(order@.len() == all.len());
    }
    let mut columns: Vec<String> = Vec::new();
    columns.push(owned("TABLE_SCHEMA"));
    columns.push(owned("TABLE_NAME"));
    columns.push(owned("COLUMN_NAME"));
    columns.push(owned("CONSTRAINT_NAME"));
    columns.push(owned("REFERENCED_TABLE_SCHEMA"));
    columns.push(owned("REFERENCED_TABLE_NAME"));
    columns.push(owned("REFERENCED_COLUMN_NAME"));
    proof {
        assert(texts(columns@) =~= kcu_columns());
    }
    QueryResult::Rows { columns, rows: sorted }
}


/// The columns of `information_schema.COLUMNS`.
pub open spec fn info_columns_columns() -> Seq<Seq<char>> {
    seq![
        "TABLE_SCHEMA"@,
        "TABLE_NAME"@,
        "COLUMN_NAME"@,
        "ORDINAL_POSITION"@,
        "DATA_TYPE"@,
        "COLUMN_TYPE"@,
        "IS_NULLABLE"@,
        "COLUMN_COLLATION"@,
    ]
}

/// The row of `information_schema.COLUMNS` for column `i` (from 0) of table `t` in `db`.
pub open spec fn info_column_row(db: Seq<char>, t: Seq<char>, i: int, c: ColumnDef) -> Seq<Seq<char>> {
    seq![
        db,
        t,
        c.name@,
        decimal((i + 1) as nat),
        spec_to_lowercase(crate::types::type_base_spec(c.data_type@)),
        spec_to_lowercase(trim_seq(c.data_type@)),
        if c.nullable { "YES"@ } else { "NO"@ },
        DEFAULT_COLLATION@,
    ]
}

/// The rows of `information_schema.COLUMNS` for table `t` of `db`, one per column in order.
pub open spec fn info_table_column_rows(db: Seq<char>, t: Seq<char>, meta: TableMeta) -> Seq<Seq<Seq<char>>> {
    Seq::new(meta.columns@.len(), |i: int| info_column_row(db, t, i, meta.columns@[i]))
}

/// Whether the table filter keeps `t`: no filter, or a name equal to `t` but for ASCII case.
pub open spec fn filter_keeps(filter: Option<Seq<char>>, t: Seq<char>) -> bool {
    match filter {
        Some(f) => eq_ignore_case_seq(f, t),
        None => true,
    }
}

/// The scan of `information_schema.COLUMNS` over `names` in order: the rows of each kept
/// table, or the first kept name whose table the catalog lacks.
pub open spec fn columns_scan(c: crate::catalog::Catalog, db: Seq<char>, filter: Option<Seq<char>>, names: Seq<Seq<char>>) -> Result<Seq<Seq<Seq<char>>>, Seq<char>>
    decreases names.len(),
{
    if names.len() == 0 {
        Ok(Seq::empty())
    } else {
        match columns_scan(c, db, filter, names.drop_last()) {
            Err(e) => Err(e),
            Ok(rows) => {
                let t = names.last();
                if !filter_keeps(filter, t) {
                    Ok(rows)
                } else if !c.tables_view().contains_key(crate::catalog::table_key_spec(db, t)) {
                    Err(t)
                } else {
                    Ok(rows + info_table_column_rows(db, t, c.tables_view()[crate::catalog::table_key_spec(db, t)]))
                }
            },
        }
    }
}

/// Once the scan of a prefix fails, the scan of the whole fails the same way.
proof fn lemma_columns_scan_err(c: crate::catalog::Catalog, db: Seq<char>, filter: Option<Seq<char>>, names: Seq<Seq<char>>, k: int)
    requires
        0 <= k <= names.len(),
        columns_scan(c, db, filter, names.take(k)) is Err,
    ensures
        columns_scan(c, db, filter, names) == columns_scan(c, db, filter, names.take(k)),
    decreases names.len(),
{
    if k == names.len() {
        assert(names.take(k) =~= names);
    } else {
        assert(names.drop_last().take(k) =~= names.take(k));
        lemma_columns_scan_err(c, db, filter, names.drop_last(), k);
    }
}

/// Appends the `information_schema.COLUMNS` rows of one table.
fn push_column_rows(rows: &mut Vec<Row>, db: &str, t: &str, meta: &TableMeta)
    ensures
        rows_view(final(rows)@) == rows_view(old(rows)@) + info_table_column_rows(db@, t@, *meta),
{
    let ghost start = rows_view(rows@);
    let mut i: usize = 0;
    proof {
        assert(start + info_table_column_rows(db@, t@, *meta).take(0) =~= start);
    }
    while i < meta.columns.len()
        invariant
            i <= meta.columns@.len(),
            rows_view(rows@) == start + info_table_column_rows(db@, t@, *meta).take(i as int),
        decreases meta.columns@.len() - i,
    {
        let c = &meta.columns[i];
        let mut row: Row = Vec::new();
        row.push(owned(db));
        row.push(owned(t));
        row.push(owned(c.name.as_str()));
        row.push(u64_to_string(i as u64 + 1));
        row.push(crate::types::data_type_name(c.data_type.as_str()));
        row.push(column_type_display(c.data_type.as_str()));
        row.push(owned(if c.nullable { "YES" } else { "NO" }));
        row.push(owned(DEFAULT_COLLATION));
        proof {
            assert(texts(row@) =~= info_column_row(db@, t@, i as int, *c));
            lemma_rows_view_push(rows@, row);
        }
        rows.push(row);
        i = i + 1;
        proof {
            assert(info_table_column_rows(db@, t@, *meta).take(i as int) =~= info_table_column_rows(db@, t@, *meta).take(i - 1).push(texts(row@)));
            assert(rows_view(rows@) =~= start + info_table_column_rows(db@, t@, *meta).take(i as int));
        }
    }
    proof {
        assert(info_table_column_rows(db@, t@, *meta).take(i as int) =~= info_table_column_rows(db@, t@, *meta));
    }
}

/// `SELECT * FROM information_schema.columns [WHERE table_name = '…']` over the tables of the
/// current database, given their names: the names sorted, those the filter keeps (ASCII case
/// ignored), one row per column of each; a not-found storage error for the first kept name
/// whose table the catalog lacks.
pub fn scan_information_schema_columns(
    table_names: Vec<String>,
    session: &Session,
    table_filter: Option<&str>,
) -> (r: Result<QueryResult, ExecError>)
    ensures
        exists|names: Seq<Seq<char>>|
            #![trigger names.len()]
            texts_sorted(names) && names.to_multiset() == texts_of(table_names@).to_multiset() && match columns_scan(
                session.catalog,
                session.database@,
                match table_filter { Some(f) => Some(f@), None => None },
                names,
            ) {
                Ok(rows) => r matches Ok(q) && is_rows(q, info_columns_columns(), rows),
                Err(t) => r matches Err(ExecError::Storage(StorageError::TableNotFound(n))) && n@ == t,
            },
{
    let names = sort_strings(table_names);
    let ghost nv = texts_of(names@);
    let ghost fv: Option<Seq<char>> = match table_filter { Some(f) => Some(f@), None => None };
    let db = session.database.as_str();
    let mut rows: Vec<Row> = Vec::new();
    let mut i: usize = 0;
    proof {
        assert(nv.take(0) =~= Seq::<Seq<char>>::empty());
        assert(rows_view(rows@) =~= Seq::<Seq<Seq<char>>>::empty());
    }
    while i < names.len()
        invariant
            i <= names@.len(),
            nv == texts_of(names@),
            texts_sorted(nv),
            nv.to_multiset() == texts_of(table_names@).to_multiset(),
            db@ == session.database@,
            fv == (match table_filter { Some(f) => Some(f@), None => None::<Seq<char>> }),
            columns_scan(session.catalog, db@, fv, nv.take(i as int)) == Ok::<Seq<Seq<Seq<char>>>, Seq<char>>(rows_view(rows@)),
        decreases names@.len() - i,
    {
        let t = names[i].as_str();
        proof {
            assert(nv.take(i + 1).drop_last() =~= nv.take(i as int));
            assert(nv.take(i + 1).last() == t@);
        }
        let keep = match table_filter {
            Some(f) => eq_ignore_ascii_case(f, t),
            None => true,
        };
        if keep {
            let key = crate::catalog::table_storage_key(db, t);
            match session.catalog.get_table(key.as_str()) {
                Some(meta) => {
                    push_column_rows(&mut rows, db, t, meta);
                },
                None => {
                    proof {
                        assert(columns_scan(session.catalog, db@, fv, nv.take(i + 1)) == Err::<Seq<Seq<Seq<char>>>, Seq<char>>(t@));
                        lemma_columns_scan_err(session.catalog, db@, fv, nv, i + 1);
                    }
                    let e = owned(t);
                    proof {
                        assert(columns_scan(session.catalog, session.database@, fv, nv) == Err::<Seq<Seq<Seq<char>>>, Seq<char>>(e@));
                        assert(nv.len() == nv.len());
                    }
                    return Err(ExecError::Storage(StorageError::TableNotFound(e)));
                },
            }
        }
        i = i + 1;
    }
    proof {
        assert(nv.take(i as int) =~= nv);
    }
    let mut columns: Vec<String> = Vec::new();
    columns.push(owned("TABLE_SCHEMA"));
    columns.push(owned("TABLE_NAME"));
    columns.push(owned("COLUMN_NAME"));
    columns.push(owned("ORDINAL_POSITION"));
    columns.push(owned("DATA_TYPE"));
    columns.push(owned("COLUMN_TYPE"));
    columns.push(owned("IS_NULLABLE"));
    columns.push(owned("COLUMN_COLLATION"));
    proof {
        assert(texts(columns@) =~= info_columns_columns());
        assert(nv.len() == nv.len());
    }
    Ok(QueryResult::Rows { columns, rows })
}

} // verus!
