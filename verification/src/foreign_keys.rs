//! FOREIGN KEY enforcement: a child row must reference an existing parent row, and a parent
//! row that is still referenced may be neither deleted nor have its referenced key changed.
//! A key whose values are all empty (NULL) references nothing.
use vstd::prelude::*;
use crate::catalog::{table_key_spec, table_storage_key, texts, ColumnDef, ForeignKeyMeta, Session, TableMeta};
use crate::executor::{ensure_supported_fk_action, fk_action_supported, push_str};
use crate::info_schema::{copy_row, join_texts, lists_values};
use crate::messages::{lookup_spec, replace_seq, sql_fk_child_violation, sql_fk_parent_violation, MessageCatalog};
use crate::name_map::NameMap;
use crate::privileges::join;
use crate::results::{lemma_rows_view_push, rows_view, ExecError, Row, StorageError};
use crate::text::{decimal, eq_ignore_ascii_case, eq_ignore_case_seq, owned, str_eq, string_from_chars};
use crate::where_filter::column_position;

verus! {

/// The names of a table's columns.
pub open spec fn col_names(cols: Seq<ColumnDef>) -> Seq<Seq<char>> {
    Seq::new(cols.len(), |i: int| cols[i].name@)
}

/// The error for a column a table does not have.
pub open spec fn unknown_col_msg(name: Seq<char>) -> Seq<char> {
    "unknown column '"@ + name + "'"@
}

/// How a foreign-key check fails: a plain message, a table the storage does not have, or a
/// violation with its error number.
pub enum FkFailure {
    Message(Seq<char>),
    NoTable(Seq<char>),
    Violation(u16, Seq<char>),
}

/// Whether `e` is the failure `f`.
pub open spec fn fails_as(e: ExecError, f: FkFailure) -> bool {
    match f {
        FkFailure::Message(m) => e matches ExecError::Message(x) && x@ == m,
        FkFailure::NoTable(k) => e matches ExecError::Storage(StorageError::TableNotFound(x)) && x@ == k,
        FkFailure::Violation(c, m) => e matches ExecError::Mysql { code, message } && code == c
            && message@ == m,
    }
}

/// The rows stored under `key`, as texts.
pub open spec fn stored_rows(stored: Map<Seq<char>, Vec<Row>>, key: Seq<char>) -> Seq<Seq<Seq<char>>> {
    rows_view(stored[key]@)
}

/// The position of the column `name` (any ASCII case), or an error.
fn column_index(cols: &Vec<ColumnDef>, name: &str) -> (r: Result<usize, ExecError>)
    ensures
        match column_position(col_names(cols@), name@) {
            Some(i) => r matches Ok(x) && x == i && x < cols@.len(),
            None => r matches Err(ExecError::Message(m)) && m@ == unknown_col_msg(name@),
        },
{
    let ghost names = col_names(cols@);
    let mut i: usize = 0;
    while i < cols.len()
        invariant
            i <= cols@.len(),
            names == col_names(cols@),
            column_position(names.take(i as int), name@) is None,
        decreases cols@.len() - i,
    {
        proof {
            assert(names.take(i + 1).drop_last() =~= names.take(i as int));
        }
        if eq_ignore_ascii_case(cols[i].name.as_str(), name) {
            proof {
                assert(names.take(i + 1).last() == cols@[i as int].name@);
                lemma_position_extends(names, name@, i + 1, i as int);
            }
            return Ok(i);
        }
        i = i + 1;
    }
    proof {
        assert(names.take(i as int) =~= names);
    }
    let mut out: Vec<char> = Vec::new();
    push_str(&mut out, "unknown column '");
    push_str(&mut out, name);
    push_str(&mut out, "'");
    Err(ExecError::Message(string_from_chars(out.as_slice())))
}

proof fn lemma_position_extends(cols: Seq<Seq<char>>, column: Seq<char>, n: int, k: int)
    requires
        0 < n <= cols.len(),
        column_position(cols.take(n), column) == Some(k),
    ensures
        column_position(cols, column) == Some(k),
        0 <= k < n,
    decreases cols.len() - n,
{
    lemma_position_bounds(cols.take(n), column);
    if n < cols.len() {
        assert(cols.take(n + 1).drop_last() =~= cols.take(n));
        assert(column_position(cols.take(n + 1), column) == Some(k));
        lemma_position_extends(cols, column, n + 1, k);
    } else {
        assert(cols.take(n) =~= cols);
    }
}

proof fn lemma_position_bounds(cols: Seq<Seq<char>>, column: Seq<char>)
    ensures
        column_position(cols, column) matches Some(k) ==> 0 <= k < cols.len(),
    decreases cols.len(),
{
    if cols.len() > 0 {
        lemma_position_bounds(cols.drop_last(), column);
    }
}

/// The cell at `i`, empty when the row is shorter.
pub open spec fn cell_or_empty(row: Seq<Seq<char>>, i: int) -> Seq<char> {
    if 0 <= i < row.len() {
        row[i]
    } else {
        Seq::empty()
    }
}

/// The cells of the columns `cols` of `row` (empty where the row is short), or the error for
/// the first column the table does not have.
pub open spec fn values_of(table: Seq<ColumnDef>, cols: Seq<Seq<char>>, row: Seq<Seq<char>>) -> Result<Seq<Seq<char>>, Seq<char>>
    decreases cols.len(),
{
    if cols.len() == 0 {
        Ok(Seq::empty())
    } else {
        match values_of(table, cols.drop_last(), row) {
            Err(m) => Err(m),
            Ok(vs) => match column_position(col_names(table), cols.last()) {
                None => Err(unknown_col_msg(cols.last())),
                Some(i) => Ok(vs.push(cell_or_empty(row, i))),
            },
        }
    }
}

/// The cells of the columns `cols` of `row`.
fn values_at(table: &Vec<ColumnDef>, cols: &Vec<String>, row: &Row) -> (r: Result<Vec<String>, ExecError>)
    ensures
        match values_of(table@, texts(cols@), texts(row@)) {
            Ok(vs) => r matches Ok(v) && texts(v@) == vs,
            Err(m) => r matches Err(ExecError::Message(x)) && x@ == m,
        },
{
    let ghost cs = texts(cols@);
    let mut out: Vec<String> = Vec::new();
    let mut i: usize = 0;
    proof {
        assert(cs.take(0) =~= Seq::<Seq<char>>::empty());
        assert(texts(out@) =~= Seq::<Seq<char>>::empty());
    }
    while i < cols.len()
        invariant
            i <= cols@.len(),
            cs == texts(cols@),
            values_of(table@, cs.take(i as int), texts(row@)) == Ok::<Seq<Seq<char>>, Seq<char>>(texts(out@)),
        decreases cols@.len() - i,
    {
        proof {
            assert(cs.take(i + 1).drop_last() =~= cs.take(i as int));
            assert(cs.take(i + 1).last() == cols@[i as int]@);
        }
        let idx = match column_index(table, cols[i].as_str()) {
            Ok(x) => x,
            Err(e) => {
                proof {
                    lemma_values_error(table@, cs, texts(row@), i + 1);
                }
                return Err(e);
            },
        };
        let cell = if idx < row.len() {
            owned(row[idx].as_str())
        } else {
            String::new()
        };
        proof {
            crate::results::lemma_texts_push(out@, cell);
        }
        out.push(cell);
        i = i + 1;
    }
    proof {
        assert(cs.take(i as int) =~= cs);
    }
    Ok(out)
}

proof fn lemma_values_error(table: Seq<ColumnDef>, cols: Seq<Seq<char>>, row: Seq<Seq<char>>, n: int)
    requires
        0 < n <= cols.len(),
        values_of(table, cols.take(n), row) is Err,
    ensures
        values_of(table, cols, row) == values_of(table, cols.take(n), row),
    decreases cols.len() - n,
{
    if n < cols.len() {
        assert(cols.take(n + 1).drop_last() =~= cols.take(n));
        lemma_values_error(table, cols, row, n + 1);
    } else {
        assert(cols.take(n) =~= cols);
    }
}

/// The referencing cells of a child row (the foreign key's columns).
fn fk_column_values(meta: &TableMeta, fk: &ForeignKeyMeta, row: &Row) -> (r: Result<Vec<String>, ExecError>)
    ensures
        match values_of(meta.columns@, texts(fk.columns@), texts(row@)) {
            Ok(vs) => r matches Ok(v) && texts(v@) == vs,
            Err(m) => r matches Err(ExecError::Message(x)) && x@ == m,
        },
{
    values_at(&meta.columns, &fk.columns, row)
}

/// The referenced cells of a parent row.
fn referenced_values_in_parent(parent: &TableMeta, fk: &ForeignKeyMeta, row: &Row) -> (r: Result<Vec<String>, ExecError>)
    ensures
        match values_of(parent.columns@, texts(fk.referenced_columns@), texts(row@)) {
            Ok(vs) => r matches Ok(v) && texts(v@) == vs,
            Err(m) => r matches Err(ExecError::Message(x)) && x@ == m,
        },
{
    values_at(&parent.columns, &fk.referenced_columns, row)
}

/// The rows stored under `key`, or the storage's not-found error.
fn scan<'a>(stored: &'a NameMap<Vec<Row>>, key: &str) -> (r: Result<&'a Vec<Row>, ExecError>)
    ensures
        stored@.contains_key(key@) ==> (r matches Ok(rows) && *rows == stored@[key@]),
        !stored@.contains_key(key@) ==> (r matches Err(ExecError::Storage(StorageError::TableNotFound(k))) && k@ == key@),
{
    match stored.get(key) {
        Some(rows) => Ok(rows),
        None => Err(ExecError::Storage(StorageError::TableNotFound(owned(key)))),
    }
}

/// `column = value` for a `DELETE`.
#[derive(Debug)]
pub struct DeleteFilter {
    pub column: String,
    pub value: String,
}

/// The rows of `rows` whose cell `i` is `value`, in order.
pub open spec fn rows_with(rows: Seq<Seq<Seq<char>>>, i: int, value: Seq<char>) -> Seq<Seq<Seq<char>>>
    decreases rows.len(),
{
    if rows.len() == 0 {
        Seq::empty()
    } else {
        let rest = rows_with(rows.drop_last(), i, value);
        if 0 <= i < rows.last().len() && rows.last()[i] == value {
            rest.push(rows.last())
        } else {
            rest
        }
    }
}

/// The rows of `meta` a `DELETE` with `filter` touches: all stored rows, or those whose
/// filter column holds the value; the storage's error for a table it does not have, and an
/// error for an unknown filter column.
pub fn matching_rows(stored: &NameMap<Vec<Row>>, meta: &TableMeta, filter: Option<&DeleteFilter>) -> (r: Result<Vec<Row>, ExecError>)
    ensures
        ({
            let key = table_key_spec(meta.schema@, meta.name@);
            if !stored@.contains_key(key) {
                fails_as(r->Err_0, FkFailure::NoTable(key)) && r is Err
            } else {
                match filter {
                    None => r matches Ok(v) && rows_view(v@) == stored_rows(stored@, key),
                    Some(f) => match column_position(col_names(meta.columns@), f.column@) {
                        None => r is Err && fails_as(r->Err_0, FkFailure::Message(unknown_col_msg(f.column@))),
                        Some(i) => r matches Ok(v) && rows_view(v@) == rows_with(stored_rows(stored@, key), i, f.value@),
                    },
                }
            }
        }),
{
    let key = table_storage_key(meta.schema.as_str(), meta.name.as_str());
    let rows = match scan(stored, key.as_str()) {
        Ok(rows) => rows,
        Err(e) => {
            return Err(e);
        },
    };
    let ghost all = rows_view(rows@);
    match filter {
        None => {
            let mut out: Vec<Row> = Vec::new();
            let mut i: usize = 0;
            while i < rows.len()
                invariant
                    i <= rows@.len(),
                    all == rows_view(rows@),
                    rows_view(out@) == all.take(i as int),
                decreases rows@.len() - i,
            {
                let c = copy_row(&rows[i]);
                proof {
                    lemma_rows_view_push(out@, c);
                    assert(all.take(i + 1) =~= all.take(i as int).push(all[i as int]));
                }
                out.push(c);
                i = i + 1;
            }
            proof {
                assert(all.take(i as int) =~= all);
            }
            Ok(out)
        },
        Some(f) => {
            let idx = match column_index(&meta.columns, f.column.as_str()) {
                Ok(x) => x,
                Err(e) => {
                    return Err(e);
                },
            };
            let mut out: Vec<Row> = Vec::new();
            let mut i: usize = 0;
            proof {
                assert(all.take(0) =~= Seq::<Seq<Seq<char>>>::empty());
            }
            while i < rows.len()
                invariant
                    i <= rows@.len(),
                    all == rows_view(rows@),
                    rows_view(out@) == rows_with(all.take(i as int), idx as int, f.value@),
                decreases rows@.len() - i,
            {
                proof {
                    assert(all.take(i + 1).drop_last() =~= all.take(i as int));
                    assert(all.take(i + 1).last() == texts(rows@[i as int]@));
                }
                let row = &rows[i];
                if idx < row.len() && str_eq(row[idx].as_str(), f.value.as_str()) {
                    let c = copy_row(row);
                    proof {
                        lemma_rows_view_push(out@, c);
                    }
                    out.push(c);
                }
                i = i + 1;
            }
            proof {
                assert(all.take(i as int) =~= all);
            }
            Ok(out)
        },
    }
}

/// `column = value` in an `UPDATE`.
#[derive(Debug)]
pub struct ColumnAssignment {
    pub column: String,
    pub value: String,
}

/// `row` with each assignment applied in turn (one past the row's end changes nothing), or
/// the error for the first unknown column.
pub open spec fn assigned(table: Seq<ColumnDef>, row: Seq<Seq<char>>, assigns: Seq<ColumnAssignment>) -> Result<Seq<Seq<char>>, Seq<char>>
    decreases assigns.len(),
{
    if assigns.len() == 0 {
        Ok(row)
    } else {
        match assigned(table, row, assigns.drop_last()) {
            Err(m) => Err(m),
            Ok(r) => match column_position(col_names(table), assigns.last().column@) {
                None => Err(unknown_col_msg(assigns.last().column@)),
                Some(i) => Ok(
                    if i < r.len() {
                        r.update(i, assigns.last().value@)
                    } else {
                        r
                    },
                ),
            },
        }
    }
}

/// `row` with the assignments of an `UPDATE` applied.
pub fn apply_assignments(meta: &TableMeta, row: &Row, assigns: &[ColumnAssignment]) -> (r: Result<Row, ExecError>)
    ensures
        match assigned(meta.columns@, texts(row@), assigns@) {
            Ok(v) => r matches Ok(out) && texts(out@) == v,
            Err(m) => r matches Err(ExecError::Message(x)) && x@ == m,
        },
{
    let mut out = copy_row(row);
    let mut i: usize = 0;
    proof {
        assert(assigns@.take(0) =~= Seq::<ColumnAssignment>::empty());
    }
    while i < assigns.len()
        invariant
            i <= assigns@.len(),
            assigned(meta.columns@, texts(row@), assigns@.take(i as int)) == Ok::<Seq<Seq<char>>, Seq<char>>(texts(out@)),
        decreases assigns@.len() - i,
    {
        proof {
            assert(assigns@.take(i + 1).drop_last() =~= assigns@.take(i as int));
            assert(assigns@.take(i + 1).last() == assigns@[i as int]);
        }
        let idx = match column_index(&meta.columns, assigns[i].column.as_str()) {
            Ok(x) => x,
            Err(e) => {
                proof {
                    lemma_assigned_error(meta.columns@, texts(row@), assigns@, i + 1);
                }
                return Err(e);
            },
        };
        if idx < out.len() {
            let ghost before = texts(out@);
            out.set(idx, owned(assigns[i].value.as_str()));
            proof {
                assert(texts(out@) =~= before.update(idx as int, assigns@[i as int].value@));
            }
        }
        i = i + 1;
    }
    proof {
        assert(assigns@.take(i as int) =~= assigns@);
    }
    Ok(out)
}

proof fn lemma_assigned_error(table: Seq<ColumnDef>, row: Seq<Seq<char>>, assigns: Seq<ColumnAssignment>, n: int)
    requires
        0 < n <= assigns.len(),
        assigned(table, row, assigns.take(n)) is Err,
    ensures
        assigned(table, row, assigns) == assigned(table, row, assigns.take(n)),
    decreases assigns.len() - n,
{
    if n < assigns.len() {
        assert(assigns.take(n + 1).drop_last() =~= assigns.take(n));
        lemma_assigned_error(table, row, assigns, n + 1);
    } else {
        assert(assigns.take(n) =~= assigns);
    }
}


/// Whether `row` holds `vals` in the columns `cols` (pairs taken while both last), or the
/// error for the first such column the table does not have.
pub open spec fn row_holds(names: Seq<Seq<char>>, cols: Seq<Seq<char>>, vals: Seq<Seq<char>>, row: Seq<Seq<char>>, k: int) -> Result<bool, Seq<char>>
    decreases cols.len() - k,
{
    if k < 0 || k >= cols.len() || k >= vals.len() {
        Ok(true)
    } else {
        match column_position(names, cols[k]) {
            None => Err(unknown_col_msg(cols[k])),
            Some(idx) => if idx < row.len() && row[idx] == vals[k] {
                row_holds(names, cols, vals, row, k + 1)
            } else {
                Ok(false)
            },
        }
    }
}

/// Whether some row from `i` on holds `vals` in the columns `cols`, stopping at the first that
/// does or at an error.
pub open spec fn some_row_holds(names: Seq<Seq<char>>, cols: Seq<Seq<char>>, vals: Seq<Seq<char>>, rows: Seq<Seq<Seq<char>>>, i: int) -> Result<bool, Seq<char>>
    decreases rows.len() - i,
{
    if i < 0 || i >= rows.len() {
        Ok(false)
    } else {
        match row_holds(names, cols, vals, rows[i], 0) {
            Err(m) => Err(m),
            Ok(true) => Ok(true),
            Ok(false) => some_row_holds(names, cols, vals, rows, i + 1),
        }
    }
}

/// The error for a parent table the catalog does not have.
pub open spec fn missing_parent_msg(key: Seq<char>) -> Seq<char> {
    "referenced table '"@ + key + "' missing"@
}

/// Whether a parent row holds the child's values in the referenced columns.
pub open spec fn parent_exists(tables: Map<Seq<char>, TableMeta>, stored: Map<Seq<char>, Vec<Row>>, fk: ForeignKeyMeta, vals: Seq<Seq<char>>) -> Result<bool, FkFailure> {
    let key = table_key_spec(fk.referenced_schema@, fk.referenced_table@);
    if !tables.contains_key(key) {
        Err(FkFailure::Message(missing_parent_msg(key)))
    } else if !stored.contains_key(key) {
        Err(FkFailure::NoTable(key))
    } else {
        match some_row_holds(
            col_names(tables[key].columns@),
            texts(fk.referenced_columns@),
            vals,
            stored_rows(stored, key),
            0,
        ) {
            Err(m) => Err(FkFailure::Message(m)),
            Ok(b) => Ok(b),
        }
    }
}

/// Whether a row holds `vals` in the columns `cols`.
fn row_holds_exec(cols_of_table: &Vec<ColumnDef>, cols: &Vec<String>, vals: &Vec<String>, row: &Row) -> (r: Result<bool, ExecError>)
    ensures
        match row_holds(col_names(cols_of_table@), texts(cols@), texts(vals@), texts(row@), 0) {
            Ok(b) => r == Ok::<bool, ExecError>(b),
            Err(m) => r matches Err(ExecError::Message(x)) && x@ == m,
        },
{
    let ghost names = col_names(cols_of_table@);
    let mut k: usize = 0;
    while k < cols.len() && k < vals.len()
        invariant
            k <= cols@.len(),
            names == col_names(cols_of_table@),
            row_holds(names, texts(cols@), texts(vals@), texts(row@), 0) == row_holds(
                names,
                texts(cols@),
                texts(vals@),
                texts(row@),
                k as int,
            ),
        decreases cols@.len() - k,
    {
        let idx = match column_index(cols_of_table, cols[k].as_str()) {
            Ok(x) => x,
            Err(e) => {
                return Err(e);
            },
        };
        if !(idx < row.len() && str_eq(row[idx].as_str(), vals[k].as_str())) {
            return Ok(false);
        }
        k = k + 1;
    }
    Ok(true)
}

/// Whether the parent table of `fk` has a row holding `child_vals` in the referenced columns.
#[verifier::loop_isolation(false)]
fn parent_row_exists(stored: &NameMap<Vec<Row>>, session: &Session, fk: &ForeignKeyMeta, child_vals: &Vec<String>) -> (r: Result<bool, ExecError>)
    ensures
        match parent_exists(session.catalog.tables_view(), stored@, *fk, texts(child_vals@)) {
            Ok(b) => r == Ok::<bool, ExecError>(b),
            Err(f) => r is Err && fails_as(r->Err_0, f),
        },
{
    let parent_key = table_storage_key(fk.referenced_schema.as_str(), fk.referenced_table.as_str());
    let parent = match session.catalog.get_table(parent_key.as_str()) {
        Some(p) => p,
        None => {
            let mut out: Vec<char> = Vec::new();
            push_str(&mut out, "referenced table '");
            push_str(&mut out, parent_key.as_str());
            push_str(&mut out, "' missing");
            return Err(ExecError::Message(string_from_chars(out.as_slice())));
        },
    };
    let rows = match scan(stored, parent_key.as_str()) {
        Ok(rows) => rows,
        Err(e) => {
            return Err(e);
        },
    };
    let ghost names = col_names(parent.columns@);
    let ghost all = rows_view(rows@);
    let mut i: usize = 0;
    while i < rows.len()
        invariant
            i <= rows@.len(),
            all == rows_view(rows@),
            names == col_names(parent.columns@),
            some_row_holds(names, texts(fk.referenced_columns@), texts(child_vals@), all, 0)
                == some_row_holds(names, texts(fk.referenced_columns@), texts(child_vals@), all, i as int),
        decreases rows@.len() - i,
    {
        proof {
            assert(all[i as int] == texts(rows@[i as int]@));
        }
        match row_holds_exec(&parent.columns, &fk.referenced_columns, child_vals, &rows[i]) {
            Ok(true) => {
                return Ok(true);
            },
            Ok(false) => {},
            Err(e) => {
                return Err(e);
            },
        }
        i = i + 1;
    }
    Ok(false)
}

/// Whether some child row from `i` on references `vals`, stopping at the first that does or
/// at an error.
pub open spec fn some_child_refers(child: Seq<ColumnDef>, fk_cols: Seq<Seq<char>>, vals: Seq<Seq<char>>, rows: Seq<Seq<Seq<char>>>, i: int) -> Result<bool, Seq<char>>
    decreases rows.len() - i,
{
    if i < 0 || i >= rows.len() {
        Ok(false)
    } else {
        match values_of(child, fk_cols, rows[i]) {
            Err(m) => Err(m),
            Ok(cv) => if cv == vals {
                Ok(true)
            } else {
                some_child_refers(child, fk_cols, vals, rows, i + 1)
            },
        }
    }
}

/// Whether a row of the child table references `vals` through `fk`.
pub open spec fn child_refers(stored: Map<Seq<char>, Vec<Row>>, child: TableMeta, fk: ForeignKeyMeta, vals: Seq<Seq<char>>) -> Result<bool, FkFailure> {
    let key = table_key_spec(child.schema@, child.name@);
    if !stored.contains_key(key) {
        Err(FkFailure::NoTable(key))
    } else {
        match some_child_refers(child.columns@, texts(fk.columns@), vals, stored_rows(stored, key), 0) {
            Err(m) => Err(FkFailure::Message(m)),
            Ok(b) => Ok(b),
        }
    }
}

/// Whether two lists of strings are equal.
fn strings_eq(a: &Vec<String>, b: &Vec<String>) -> (r: bool)
    ensures
        r == (texts(a@) == texts(b@)),
{
    if a.len() != b.len() {
        proof {
            assert(texts(a@).len() != texts(b@).len());
        }
        return false;
    }
    let mut i: usize = 0;
    while i < a.len()
        invariant
            i <= a@.len() == b@.len(),
            forall|j: int| 0 <= j < i ==> a@[j]@ == b@[j]@,
        decreases a@.len() - i,
    {
        if !str_eq(a[i].as_str(), b[i].as_str()) {
            proof {
                assert(texts(a@)[i as int] != texts(b@)[i as int]);
            }
            return false;
        }
        i = i + 1;
    }
    proof {
        assert(texts(a@) =~= texts(b@));
    }
    true
}

/// Whether the child table has a row referencing `parent_vals` through `fk`.
#[verifier::loop_isolation(false)]
fn child_has_reference(stored: &NameMap<Vec<Row>>, child: &TableMeta, fk: &ForeignKeyMeta, parent_vals: &Vec<String>) -> (r: Result<bool, ExecError>)
    ensures
        match child_refers(stored@, *child, *fk, texts(parent_vals@)) {
            Ok(b) => r == Ok::<bool, ExecError>(b),
            Err(f) => r is Err && fails_as(r->Err_0, f),
        },
{
    let child_key = table_storage_key(child.schema.as_str(), child.name.as_str());
    let rows = match scan(stored, child_key.as_str()) {
        Ok(rows) => rows,
        Err(e) => {
            return Err(e);
        },
    };
    let ghost all = rows_view(rows@);
    let mut i: usize = 0;
    while i < rows.len()
        invariant
            i <= rows@.len(),
            all == rows_view(rows@),
            some_child_refers(child.columns@, texts(fk.columns@), texts(parent_vals@), all, 0)
                == some_child_refers(child.columns@, texts(fk.columns@), texts(parent_vals@), all, i as int),
        decreases rows@.len() - i,
    {
        proof {
            assert(all[i as int] == texts(rows@[i as int]@));
        }
        let cv = match fk_column_values(child, fk, &rows[i]) {
            Ok(v) => v,
            Err(e) => {
                return Err(e);
            },
        };
        if strings_eq(&cv, parent_vals) {
            return Ok(true);
        }
        i = i + 1;
    }
    Ok(false)
}

/// The name a foreign key's errors give it: its own, else `{table}_ibfk_{index + 1}`.
pub open spec fn constraint_name_spec(fk: ForeignKeyMeta, table: Seq<char>, index: int) -> Seq<char> {
    match fk.name {
        Some(n) => n@,
        None => table + "_ibfk_"@ + decimal((index + 1) as nat),
    }
}

/// Error 1452: a child row references no parent row.
pub open spec fn child_violation_msg(cat: MessageCatalog, meta: TableMeta, fk: ForeignKeyMeta, index: int) -> Seq<char> {
    replace_seq(
        replace_seq(
            replace_seq(
                replace_seq(
                    replace_seq(
                        replace_seq(lookup_spec(cat@, "sql.fk_child_violation"@), "%{schema}"@, meta.schema@),
                        "%{table}"@,
                        meta.name@,
                    ),
                    "%{constraint}"@,
                    constraint_name_spec(fk, meta.name@, index),
                ),
                "%{columns}"@,
                join(texts(fk.columns@), "`, `"@),
            ),
            "%{ref_table}"@,
            fk.referenced_table@,
        ),
        "%{ref_columns}"@,
        join(texts(fk.referenced_columns@), "`, `"@),
    )
}

/// Error 1451: a parent row is still referenced.
pub open spec fn parent_violation_msg(cat: MessageCatalog, child: TableMeta, fk: ForeignKeyMeta, index: int, parent: TableMeta) -> Seq<char> {
    replace_seq(
        replace_seq(
            replace_seq(
                replace_seq(
                    replace_seq(
                        replace_seq(lookup_spec(cat@, "sql.fk_parent_violation"@), "%{schema}"@, child.schema@),
                        "%{table}"@,
                        child.name@,
                    ),
                    "%{constraint}"@,
                    constraint_name_spec(fk, child.name@, index),
                ),
                "%{columns}"@,
                join(texts(fk.columns@), "`, `"@),
            ),
            "%{ref_table}"@,
            parent.name@,
        ),
        "%{ref_columns}"@,
        join(texts(fk.referenced_columns@), "`, `"@),
    )
}

/// Error 1452 for the foreign key `index` of `meta`.
fn child_violation(cat: &MessageCatalog, meta: &TableMeta, fk: &ForeignKeyMeta, index: usize) -> (r: ExecError)
    requires
        index < u64::MAX,
    ensures
        fails_as(r, FkFailure::Violation(1452, child_violation_msg(*cat, *meta, *fk, index as int))),
{
    let name = fk.constraint_name(meta.name.as_str(), index);
    let cols = join_texts(&fk.columns, "`, `");
    let refs = join_texts(&fk.referenced_columns, "`, `");
    ExecError::Mysql {
        code: 1452,
        message: sql_fk_child_violation(
            cat,
            meta.schema.as_str(),
            meta.name.as_str(),
            name.as_str(),
            cols.as_str(),
            fk.referenced_table.as_str(),
            refs.as_str(),
        ),
    }
}

/// Error 1451 for the foreign key `index` of `child` referencing `parent`.
fn parent_violation(cat: &MessageCatalog, child: &TableMeta, fk: &ForeignKeyMeta, index: usize, parent: &TableMeta) -> (r: ExecError)
    requires
        index < u64::MAX,
    ensures
        fails_as(r, FkFailure::Violation(1451, parent_violation_msg(*cat, *child, *fk, index as int, *parent))),
{
    let name = fk.constraint_name(child.name.as_str(), index);
    let cols = join_texts(&fk.columns, "`, `");
    let refs = join_texts(&fk.referenced_columns, "`, `");
    ExecError::Mysql {
        code: 1451,
        message: sql_fk_parent_violation(
            cat,
            child.schema.as_str(),
            child.name.as_str(),
            name.as_str(),
            cols.as_str(),
            parent.name.as_str(),
            refs.as_str(),
        ),
    }
}

/// Whether every value is empty (NULL).
pub open spec fn all_empty(vals: Seq<Seq<char>>) -> bool {
    forall|i: int| 0 <= i < vals.len() ==> #[trigger] vals[i].len() == 0
}

/// Whether every string is empty.
fn all_empty_exec(vals: &Vec<String>) -> (r: bool)
    ensures
        r == all_empty(texts(vals@)),
{
    let mut i: usize = 0;
    while i < vals.len()
        invariant
            i <= vals@.len(),
            forall|j: int| 0 <= j < i ==> #[trigger] vals@[j]@.len() == 0,
        decreases vals@.len() - i,
    {
        if vals[i].unicode_len() != 0 {
            proof {
                assert(texts(vals@)[i as int].len() != 0);
            }
            return false;
        }
        i = i + 1;
    }
    proof {
        assert forall|j: int| 0 <= j < texts(vals@).len() implies #[trigger] texts(vals@)[j].len() == 0 by {
            assert(vals@[j]@.len() == 0);
        }
    }
    true
}

/// The check of an inserted child row against the foreign keys of `meta` from `i` on: each
/// key that is not all NULL must reference a parent row.
pub open spec fn insert_check(cat: MessageCatalog, tables: Map<Seq<char>, TableMeta>, stored: Map<Seq<char>, Vec<Row>>, meta: TableMeta, row: Seq<Seq<char>>, i: int) -> Result<(), FkFailure>
    decreases meta.foreign_keys@.len() - i,
{
    if i < 0 || i >= meta.foreign_keys@.len() {
        Ok(())
    } else {
        let fk = meta.foreign_keys@[i];
        match values_of(meta.columns@, texts(fk.columns@), row) {
            Err(m) => Err(FkFailure::Message(m)),
            Ok(cv) => if all_empty(cv) {
                insert_check(cat, tables, stored, meta, row, i + 1)
            } else {
                match parent_exists(tables, stored, fk, cv) {
                    Err(f) => Err(f),
                    Ok(true) => insert_check(cat, tables, stored, meta, row, i + 1),
                    Ok(false) => Err(FkFailure::Violation(1452, child_violation_msg(cat, meta, fk, i))),
                }
            },
        }
    }
}

/// Checks a row about to be inserted into `child_meta` against its foreign keys.
pub fn check_insert(cat: &MessageCatalog, stored: &NameMap<Vec<Row>>, session: &Session, child_meta: &TableMeta, row: &Row) -> (r: Result<(), ExecError>)
    ensures
        match insert_check(*cat, session.catalog.tables_view(), stored@, *child_meta, texts(row@), 0) {
            Ok(()) => r is Ok,
            Err(f) => r is Err && fails_as(r->Err_0, f),
        },
{
    let mut i: usize = 0;
    while i < child_meta.foreign_keys.len()
        invariant
            i <= child_meta.foreign_keys@.len(),
            insert_check(*cat, session.catalog.tables_view(), stored@, *child_meta, texts(row@), 0)
                == insert_check(*cat, session.catalog.tables_view(), stored@, *child_meta, texts(row@), i as int),
        decreases child_meta.foreign_keys@.len() - i,
    {
        let fk = &child_meta.foreign_keys[i];
        let cv = match fk_column_values(child_meta, fk, row) {
            Ok(v) => v,
            Err(e) => {
                return Err(e);
            },
        };
        if !all_empty_exec(&cv) {
            match parent_row_exists(stored, session, fk, &cv) {
                Ok(true) => {},
                Ok(false) => {
                    proof {
                        assert(i < u64::MAX);
                    }
                    return Err(child_violation(cat, child_meta, fk, i));
                },
                Err(e) => {
                    return Err(e);
                },
            }
        }
        i = i + 1;
    }
    Ok(())
}


/// Whether `fk` references the table `parent` (schema exactly, name in any ASCII case).
pub open spec fn refers_to(fk: ForeignKeyMeta, parent: TableMeta) -> bool {
    fk.referenced_schema@ == parent.schema@ && eq_ignore_case_seq(fk.referenced_table@, parent.name@)
}

/// The first `n` foreign keys of `t` that reference `parent`, with their positions.
pub open spec fn fks_to(t: TableMeta, parent: TableMeta, n: int) -> Seq<(TableMeta, ForeignKeyMeta, int)>
    decreases n,
{
    if n <= 0 || n > t.foreign_keys@.len() {
        Seq::empty()
    } else {
        fks_to(t, parent, n - 1) + if refers_to(t.foreign_keys@[n - 1], parent) {
            seq![(t, t.foreign_keys@[n - 1], n - 1)]
        } else {
            Seq::empty()
        }
    }
}

/// The foreign keys of the tables `ts` that reference `parent`, table by table.
pub open spec fn incoming_of(ts: Seq<TableMeta>, parent: TableMeta) -> Seq<(TableMeta, ForeignKeyMeta, int)>
    decreases ts.len(),
{
    if ts.len() == 0 {
        Seq::empty()
    } else {
        incoming_of(ts.drop_last(), parent) + fks_to(ts.last(), parent, ts.last().foreign_keys@.len() as int)
    }
}

/// The plain values of a list of referencing keys.
pub open spec fn incoming_view(v: Seq<(&TableMeta, &ForeignKeyMeta, usize)>) -> Seq<(TableMeta, ForeignKeyMeta, int)> {
    Seq::new(v.len(), |i: int| (*v[i].0, *v[i].1, v[i].2 as int))
}

/// The foreign keys of the catalog's tables that reference `parent`, with their child tables
/// and positions.
fn incoming_foreign_keys<'a>(session: &'a Session, parent: &TableMeta) -> (r: Vec<(&'a TableMeta, &'a ForeignKeyMeta, usize)>)
    ensures
        exists|ts: Seq<TableMeta>|
            #![trigger ts.len()]
            lists_values(session.catalog.tables_view(), ts) && incoming_view(r@) == incoming_of(ts, *parent),
        forall|k: int| 0 <= k < r@.len() ==> (r@[k].2 as int) < (#[trigger] r@[k]).0.foreign_keys@.len(),
{
    let all = session.catalog.iter_tables();
    let ghost ts = Seq::new(all@.len(), |i: int| *all@[i]);
    let mut out: Vec<(&TableMeta, &ForeignKeyMeta, usize)> = Vec::new();
    let mut i: usize = 0;
    proof {
        assert(ts.take(0) =~= Seq::<TableMeta>::empty());
        assert(incoming_view(out@) =~= Seq::<(TableMeta, ForeignKeyMeta, int)>::empty());
    }
    while i < all.len()
        invariant
            i <= all@.len(),
            ts == Seq::new(all@.len(), |i: int| *all@[i]),
            incoming_view(out@) == incoming_of(ts.take(i as int), *parent),
            forall|k: int| 0 <= k < out@.len() ==> (out@[k].2 as int) < (#[trigger] out@[k]).0.foreign_keys@.len(),
        decreases all@.len() - i,
    {
        let child = all[i];
        let ghost base = incoming_view(out@);
        let mut j: usize = 0;
        proof {
            assert(base + fks_to(*child, *parent, 0) =~= base);
        }
        while j < child.foreign_keys.len()
            invariant
                j <= child.foreign_keys@.len(),
                incoming_view(out@) == base + fks_to(*child, *parent, j as int),
                forall|k: int| 0 <= k < out@.len() ==> (out@[k].2 as int) < (#[trigger] out@[k]).0.foreign_keys@.len(),
            decreases child.foreign_keys@.len() - j,
        {
            let fk = &child.foreign_keys[j];
            if str_eq(fk.referenced_schema.as_str(), parent.schema.as_str()) && eq_ignore_ascii_case(
                fk.referenced_table.as_str(),
                parent.name.as_str(),
            ) {
                let ghost before = incoming_view(out@);
                out.push((child, fk, j));
                proof {
                    assert(incoming_view(out@) =~= before.push((*child, *fk, j as int)));
                    assert(base + fks_to(*child, *parent, j + 1) =~= base + fks_to(*child, *parent, j as int)
                        + seq![(*child, *fk, j as int)]);
                }
            } else {
                proof {
                    assert(fks_to(*child, *parent, j + 1) =~= fks_to(*child, *parent, j as int));
                }
            }
            j = j + 1;
        }
        proof {
            assert(ts.take(i + 1).drop_last() =~= ts.take(i as int));
            assert(ts.take(i + 1).last() == *child);
        }
        i = i + 1;
    }
    proof {
        assert(ts.take(i as int) =~= ts);
        let ks = choose|ks: Seq<Seq<char>>|
            #![auto]
            ks.no_duplicates() && ks.to_set() == session.catalog.tables_view().dom() && ks.len()
                == all@.len() && forall|i: int|
                0 <= i < all@.len() ==> *all@[i] == session.catalog.tables_view()[ks[i]];
        assert(ks.len() == ts.len());
        assert(lists_values(session.catalog.tables_view(), ts));
        assert(ts.len() == ts.len());
    }
    out
}

/// The check of deleting the parent row `row` against the referencing keys from `j` on.
pub open spec fn delete_row_check(cat: MessageCatalog, stored: Map<Seq<char>, Vec<Row>>, inc: Seq<(TableMeta, ForeignKeyMeta, int)>, parent: TableMeta, row: Seq<Seq<char>>, j: int) -> Result<(), FkFailure>
    decreases inc.len() - j,
{
    if j < 0 || j >= inc.len() {
        Ok(())
    } else {
        let (child, fk, idx) = inc[j];
        match values_of(parent.columns@, texts(fk.referenced_columns@), row) {
            Err(m) => Err(FkFailure::Message(m)),
            Ok(pv) => if all_empty(pv) {
                delete_row_check(cat, stored, inc, parent, row, j + 1)
            } else {
                match child_refers(stored, child, fk, pv) {
                    Err(f) => Err(f),
                    Ok(true) => Err(FkFailure::Violation(1451, parent_violation_msg(cat, child, fk, idx, parent))),
                    Ok(false) => delete_row_check(cat, stored, inc, parent, row, j + 1),
                }
            },
        }
    }
}

/// The check of deleting the parent rows from `i` on.
pub open spec fn delete_check(cat: MessageCatalog, stored: Map<Seq<char>, Vec<Row>>, inc: Seq<(TableMeta, ForeignKeyMeta, int)>, parent: TableMeta, rows: Seq<Seq<Seq<char>>>, i: int) -> Result<(), FkFailure>
    decreases rows.len() - i,
{
    if i < 0 || i >= rows.len() {
        Ok(())
    } else {
        match delete_row_check(cat, stored, inc, parent, rows[i], 0) {
            Err(f) => Err(f),
            Ok(()) => delete_check(cat, stored, inc, parent, rows, i + 1),
        }
    }
}

/// The check of one parent row against the referencing keys.
fn check_delete_row(cat: &MessageCatalog, stored: &NameMap<Vec<Row>>, inc: &Vec<(&TableMeta, &ForeignKeyMeta, usize)>, parent: &TableMeta, row: &Row) -> (r: Result<(), ExecError>)
    requires
        forall|k: int| 0 <= k < inc@.len() ==> (inc@[k].2 as int) < (#[trigger] inc@[k]).0.foreign_keys@.len(),
    ensures
        match delete_row_check(*cat, stored@, incoming_view(inc@), *parent, texts(row@), 0) {
            Ok(()) => r is Ok,
            Err(f) => r is Err && fails_as(r->Err_0, f),
        },
{
    let mut j: usize = 0;
    while j < inc.len()
        invariant
            j <= inc@.len(),
            forall|k: int| 0 <= k < inc@.len() ==> (inc@[k].2 as int) < (#[trigger] inc@[k]).0.foreign_keys@.len(),
            delete_row_check(*cat, stored@, incoming_view(inc@), *parent, texts(row@), 0)
                == delete_row_check(*cat, stored@, incoming_view(inc@), *parent, texts(row@), j as int),
        decreases inc@.len() - j,
    {
        let (child, fk, idx) = inc[j];
        let nfks = child.foreign_keys.len();
        proof {
            assert(incoming_view(inc@)[j as int] == (*child, *fk, idx as int));
            assert((idx as int) < child.foreign_keys@.len());
            assert(idx < nfks);
        }
        let pv = match referenced_values_in_parent(parent, fk, row) {
            Ok(v) => v,
            Err(e) => {
                return Err(e);
            },
        };
        if !all_empty_exec(&pv) {
            match child_has_reference(stored, child, fk, &pv) {
                Ok(true) => {
                    return Err(parent_violation(cat, child, fk, idx, parent));
                },
                Ok(false) => {},
                Err(e) => {
                    return Err(e);
                },
            }
        }
        j = j + 1;
    }
    Ok(())
}

/// Checks that deleting `rows` from `parent_meta` leaves no child row without its parent.
pub fn check_delete(cat: &MessageCatalog, stored: &NameMap<Vec<Row>>, session: &Session, parent_meta: &TableMeta, rows: &Vec<Row>) -> (r: Result<(), ExecError>)
    ensures
        exists|ts: Seq<TableMeta>|
            #![trigger ts.len()]
            lists_values(session.catalog.tables_view(), ts) && match delete_check(
                *cat,
                stored@,
                incoming_of(ts, *parent_meta),
                *parent_meta,
                rows_view(rows@),
                0,
            ) {
                Ok(()) => r is Ok,
                Err(f) => r is Err && fails_as(r->Err_0, f),
            },
{
    let inc = incoming_foreign_keys(session, parent_meta);
    let ghost ts = choose|ts: Seq<TableMeta>|
        #![trigger ts.len()]
        lists_values(session.catalog.tables_view(), ts) && incoming_view(inc@) == incoming_of(ts, *parent_meta);
    let ghost all = rows_view(rows@);
    let mut i: usize = 0;
    while i < rows.len()
        invariant
            i <= rows@.len(),
            all == rows_view(rows@),
            lists_values(session.catalog.tables_view(), ts),
            incoming_view(inc@) == incoming_of(ts, *parent_meta),
            forall|k: int| 0 <= k < inc@.len() ==> (inc@[k].2 as int) < (#[trigger] inc@[k]).0.foreign_keys@.len(),
            delete_check(*cat, stored@, incoming_view(inc@), *parent_meta, all, 0)
                == delete_check(*cat, stored@, incoming_view(inc@), *parent_meta, all, i as int),
        decreases rows@.len() - i,
    {
        proof {
            assert(all[i as int] == texts(rows@[i as int]@));
        }
        match check_delete_row(cat, stored, &inc, parent_meta, &rows[i]) {
            Ok(()) => {},
            Err(e) => {
                proof {
                    assert(ts.len() == ts.len());
                }
                return Err(e);
            },
        }
        i = i + 1;
    }
    proof {
        assert(ts.len() == ts.len());
    }
    Ok(())
}

/// The check of changing a parent row from `old` to `new` against the referencing keys from
/// `j` on: a key whose referenced values change and were not all NULL must have no child row.
pub open spec fn update_check(cat: MessageCatalog, stored: Map<Seq<char>, Vec<Row>>, inc: Seq<(TableMeta, ForeignKeyMeta, int)>, meta: TableMeta, old: Seq<Seq<char>>, new: Seq<Seq<char>>, j: int) -> Result<(), FkFailure>
    decreases inc.len() - j,
{
    if j < 0 || j >= inc.len() {
        Ok(())
    } else {
        let (child, fk, idx) = inc[j];
        match values_of(meta.columns@, texts(fk.referenced_columns@), old) {
            Err(m) => Err(FkFailure::Message(m)),
            Ok(ov) => match values_of(meta.columns@, texts(fk.referenced_columns@), new) {
                Err(m) => Err(FkFailure::Message(m)),
                Ok(nv) => if ov == nv || all_empty(ov) {
                    update_check(cat, stored, inc, meta, old, new, j + 1)
                } else {
                    match child_refers(stored, child, fk, ov) {
                        Err(f) => Err(f),
                        Ok(true) => Err(FkFailure::Violation(1451, parent_violation_msg(cat, child, fk, idx, meta))),
                        Ok(false) => update_check(cat, stored, inc, meta, old, new, j + 1),
                    }
                },
            },
        }
    }
}

/// Checks an update of a row of `meta` from `old_row` to `new_row`: the new row as an insert,
/// then the old row's referenced keys as a parent.
pub fn check_update(cat: &MessageCatalog, stored: &NameMap<Vec<Row>>, session: &Session, meta: &TableMeta, old_row: &Row, new_row: &Row) -> (r: Result<(), ExecError>)
    ensures
        exists|ts: Seq<TableMeta>|
            #![trigger ts.len()]
            lists_values(session.catalog.tables_view(), ts) && match insert_check(
                *cat,
                session.catalog.tables_view(),
                stored@,
                *meta,
                texts(new_row@),
                0,
            ) {
                Err(f) => r is Err && fails_as(r->Err_0, f),
                Ok(()) => match update_check(
                    *cat,
                    stored@,
                    incoming_of(ts, *meta),
                    *meta,
                    texts(old_row@),
                    texts(new_row@),
                    0,
                ) {
                    Ok(()) => r is Ok,
                    Err(f) => r is Err && fails_as(r->Err_0, f),
                },
            },
{
    let inc = incoming_foreign_keys(session, meta);
    let ghost ts = choose|ts: Seq<TableMeta>|
        #![trigger ts.len()]
        lists_values(session.catalog.tables_view(), ts) && incoming_view(inc@) == incoming_of(ts, *meta);
    match check_insert(cat, stored, session, meta, new_row) {
        Ok(()) => {},
        Err(e) => {
            proof {
                assert(ts.len() == ts.len());
            }
            return Err(e);
        },
    }
    let mut j: usize = 0;
    while j < inc.len()
        invariant
            j <= inc@.len(),
            lists_values(session.catalog.tables_view(), ts),
            incoming_view(inc@) == incoming_of(ts, *meta),
            insert_check(*cat, session.catalog.tables_view(), stored@, *meta, texts(new_row@), 0) is Ok,
            forall|k: int| 0 <= k < inc@.len() ==> (inc@[k].2 as int) < (#[trigger] inc@[k]).0.foreign_keys@.len(),
            update_check(*cat, stored@, incoming_view(inc@), *meta, texts(old_row@), texts(new_row@), 0)
                == update_check(*cat, stored@, incoming_view(inc@), *meta, texts(old_row@), texts(new_row@), j as int),
        decreases inc@.len() - j,
    {
        let (child, fk, idx) = inc[j];
        let nfks = child.foreign_keys.len();
        proof {
            assert(incoming_view(inc@)[j as int] == (*child, *fk, idx as int));
            assert((idx as int) < child.foreign_keys@.len());
            assert(idx < nfks);
        }
        let ov = match referenced_values_in_parent(meta, fk, old_row) {
            Ok(v) => v,
            Err(e) => {
                proof {
                    assert(ts.len() == ts.len());
                }
                return Err(e);
            },
        };
        let nv = match referenced_values_in_parent(meta, fk, new_row) {
            Ok(v) => v,
            Err(e) => {
                proof {
                    assert(ts.len() == ts.len());
                }
                return Err(e);
            },
        };
        if !strings_eq(&ov, &nv) && !all_empty_exec(&ov) {
            match child_has_reference(stored, child, fk, &ov) {
                Ok(true) => {
                    proof {
                        assert(ts.len() == ts.len());
                    }
                    return Err(parent_violation(cat, child, fk, idx, meta));
                },
                Ok(false) => {},
                Err(e) => {
                    proof {
                        assert(ts.len() == ts.len());
                    }
                    return Err(e);
                },
            }
        }
        j = j + 1;
    }
    proof {
        assert(ts.len() == ts.len());
    }
    Ok(())
}


/// A table constraint of `CREATE TABLE`, as far as foreign keys read it.
#[derive(Debug)]
pub enum TableConstraint {
    /// `[CONSTRAINT name] FOREIGN KEY (columns) REFERENCES table (columns) [ON DELETE …]
    /// [ON UPDATE …]`, the referenced table by its name parts and each action as written.
    ForeignKey {
        name: Option<String>,
        columns: Vec<String>,
        foreign_table: Vec<String>,
        referred_columns: Vec<String>,
        on_delete: Option<String>,
        on_update: Option<String>,
    },
    /// Any other constraint.
    Other,
}

/// A referential action as written, `RESTRICT` when none is.
pub open spec fn action_text(action: Option<String>) -> Seq<char> {
    match action {
        Some(a) => a@,
        None => "RESTRICT"@,
    }
}

/// A referential action as written, `RESTRICT` when none is.
pub fn ref_action_to_string(action: Option<&str>) -> (r: String)
    ensures
        r@ == match action {
            Some(a) => a@,
            None => "RESTRICT"@,
        },
{
    match action {
        Some(a) => owned(a),
        None => owned("RESTRICT"),
    }
}

/// The referenced table of a foreign key: `table` in the default schema, or `schema.table`;
/// with its storage key. Other forms are refused.
pub open spec fn fk_reference(default_schema: Seq<char>, parts: Seq<Seq<char>>) -> Result<(Seq<char>, Seq<char>, Seq<char>), Seq<char>> {
    if parts.len() == 1 {
        Ok((default_schema, parts[0], table_key_spec(default_schema, parts[0])))
    } else if parts.len() == 2 {
        Ok((parts[0], parts[1], table_key_spec(parts[0], parts[1])))
    } else {
        Err("unsupported foreign key reference: "@ + join(parts, "."@))
    }
}

/// The referenced schema, table and storage key of a foreign key.
pub fn resolve_fk_reference(default_schema: &str, name: &Vec<String>) -> (r: Result<(String, String, String), ExecError>)
    ensures
        match fk_reference(default_schema@, texts(name@)) {
            Ok((s, t, k)) => r matches Ok((a, b, c)) && a@ == s && b@ == t && c@ == k,
            Err(m) => r matches Err(ExecError::Message(x)) && x@ == m,
        },
{
    if name.len() == 1 {
        let table = name[0].as_str();
        Ok((owned(default_schema), owned(table), table_storage_key(default_schema, table)))
    } else if name.len() == 2 {
        let schema = name[0].as_str();
        let table = name[1].as_str();
        Ok((owned(schema), owned(table), table_storage_key(schema, table)))
    } else {
        let joined = join_texts(name, ".");
        let mut out: Vec<char> = Vec::new();
        push_str(&mut out, "unsupported foreign key reference: ");
        push_str(&mut out, joined.as_str());
        Err(ExecError::Message(string_from_chars(out.as_slice())))
    }
}

/// The message for an unsupported referential action.
pub open spec fn action_error(kind: Seq<char>, action: Seq<char>) -> Seq<char> {
    "unsupported FOREIGN KEY ON "@ + kind + " "@ + action
}

/// What a constraint comes to: nothing for a non-foreign-key constraint; an error for unequal
/// column counts, an unsupported reference, or an unsupported `ON DELETE` then `ON UPDATE`
/// action; else the foreign key (name, columns, referenced schema, table and columns, actions).
pub open spec fn fk_of_constraint(c: TableConstraint, child_schema: Seq<char>) -> Result<Option<(Option<Seq<char>>, Seq<Seq<char>>, Seq<char>, Seq<char>, Seq<Seq<char>>, Seq<char>, Seq<char>)>, Seq<char>> {
    match c {
        TableConstraint::Other => Ok(None),
        TableConstraint::ForeignKey { name, columns, foreign_table, referred_columns, on_delete, on_update } => {
            if columns@.len() != referred_columns@.len() {
                Err("FOREIGN KEY column count must match referenced column count"@)
            } else {
                match fk_reference(child_schema, texts(foreign_table@)) {
                    Err(m) => Err(m),
                    Ok((rs, rt, _)) => {
                        let d = action_text(on_delete);
                        let u = action_text(on_update);
                        if !fk_action_supported(d) {
                            Err(action_error("DELETE"@, d))
                        } else if !fk_action_supported(u) {
                            Err(action_error("UPDATE"@, u))
                        } else {
                            Ok(
                                Some(
                                    (
                                        match name {
                                            Some(n) => Some(n@),
                                            None => None,
                                        },
                                        texts(columns@),
                                        rs,
                                        rt,
                                        texts(referred_columns@),
                                        d,
                                        u,
                                    ),
                                ),
                            )
                        }
                    },
                }
            }
        },
    }
}

/// The plain values of a foreign key.
pub open spec fn fk_view(fk: ForeignKeyMeta) -> (Option<Seq<char>>, Seq<Seq<char>>, Seq<char>, Seq<char>, Seq<Seq<char>>, Seq<char>, Seq<char>) {
    (
        match fk.name {
            Some(n) => Some(n@),
            None => None,
        },
        texts(fk.columns@),
        fk.referenced_schema@,
        fk.referenced_table@,
        texts(fk.referenced_columns@),
        fk.on_delete@,
        fk.on_update@,
    )
}

/// A copy of a list of strings.
fn copy_strings(v: &Vec<String>) -> (r: Vec<String>)
    ensures
        texts(r@) == texts(v@),
{
    copy_row(v)
}

/// The foreign key a `CREATE TABLE` constraint declares, if it declares one.
pub fn foreign_key_from_constraint(constraint: &TableConstraint, child_schema: &str) -> (r: Result<Option<ForeignKeyMeta>, ExecError>)
    ensures
        match fk_of_constraint(*constraint, child_schema@) {
            Err(m) => r matches Err(ExecError::Message(x)) && x@ == m,
            Ok(None) => r matches Ok(None),
            Ok(Some(v)) => r matches Ok(Some(fk)) && fk_view(fk) == v,
        },
{
    match constraint {
        TableConstraint::Other => Ok(None),
        TableConstraint::ForeignKey { name, columns, foreign_table, referred_columns, on_delete, on_update } => {
            if columns.len() != referred_columns.len() {
                return Err(
                    ExecError::Message(owned("FOREIGN KEY column count must match referenced column count")),
                );
            }
            let (referenced_schema, referenced_table, _) = match resolve_fk_reference(child_schema, foreign_table) {
                Ok(t) => t,
                Err(e) => {
                    return Err(e);
                },
            };
            let d = ref_action_to_string(
                match on_delete {
                    Some(a) => Some(a.as_str()),
                    None => None,
                },
            );
            let u = ref_action_to_string(
                match on_update {
                    Some(a) => Some(a.as_str()),
                    None => None,
                },
            );
            match ensure_supported_fk_action(d.as_str(), "DELETE") {
                Ok(()) => {},
                Err(e) => {
                    return Err(e);
                },
            }
            match ensure_supported_fk_action(u.as_str(), "UPDATE") {
                Ok(()) => {},
                Err(e) => {
                    return Err(e);
                },
            }
            let fk = ForeignKeyMeta {
                name: match name {
                    Some(n) => Some(owned(n.as_str())),
                    None => None,
                },
                columns: copy_strings(columns),
                referenced_schema,
                referenced_table,
                referenced_columns: copy_strings(referred_columns),
                on_delete: d,
                on_update: u,
            };
            Ok(Some(fk))
        },
    }
}


/// Checking a single row for deletion is checking that row.
proof fn lemma_delete_check_single(cat: MessageCatalog, stored: Map<Seq<char>, Vec<Row>>, inc: Seq<(TableMeta, ForeignKeyMeta, int)>, parent: TableMeta, row: Seq<Seq<char>>)
    ensures
        delete_check(cat, stored, inc, parent, seq![row], 0) == delete_row_check(cat, stored, inc, parent, row, 0),
{
    let rows = seq![row];
    assert(rows[0] == row);
    assert(rows.len() == 1);
    assert(delete_check(cat, stored, inc, parent, rows, 1) == Ok::<(), FkFailure>(()));
    match delete_row_check(cat, stored, inc, parent, row, 0) {
        Err(f) => {
            assert(delete_check(cat, stored, inc, parent, rows, 0) == Err::<(), FkFailure>(f));
        },
        Ok(u) => {
            assert(delete_check(cat, stored, inc, parent, rows, 0) == Ok::<(), FkFailure>(()));
        },
    }
}

proof fn lemma_delete_check_from(cat: MessageCatalog, stored: Map<Seq<char>, Vec<Row>>, inc: Seq<(TableMeta, ForeignKeyMeta, int)>, parent: TableMeta, rows: Seq<Seq<Seq<char>>>, s: int, i: int)
    requires
        0 <= s <= i < rows.len(),
        delete_row_check(cat, stored, inc, parent, rows[i], 0) is Err,
    ensures
        delete_check(cat, stored, inc, parent, rows, s) is Err,
    decreases i - s,
{
    if s < i {
        if delete_row_check(cat, stored, inc, parent, rows[s], 0) is Ok {
            lemma_delete_check_from(cat, stored, inc, parent, rows, s + 1, i);
        }
    }
}

proof fn lemma_delete_check_all_ok(cat: MessageCatalog, stored: Map<Seq<char>, Vec<Row>>, inc: Seq<(TableMeta, ForeignKeyMeta, int)>, parent: TableMeta, rows: Seq<Seq<Seq<char>>>, s: int)
    requires
        0 <= s <= rows.len(),
        forall|i: int| s <= i < rows.len() ==> (#[trigger] delete_row_check(cat, stored, inc, parent, rows[i], 0)) is Ok,
    ensures
        delete_check(cat, stored, inc, parent, rows, s) is Ok,
    decreases rows.len() - s,
{
    if s < rows.len() {
        assert(delete_row_check(cat, stored, inc, parent, rows[s], 0) is Ok);
        lemma_delete_check_all_ok(cat, stored, inc, parent, rows, s + 1);
    }
}

/// Deleting a set of parent rows is refused exactly when deleting one of them alone would be:
/// if any row's own deletion check fails, the whole deletion fails; if every row's passes, the
/// whole deletion passes.
pub proof fn lemma_delete_refused_iff_some_row(cat: MessageCatalog, stored: Map<Seq<char>, Vec<Row>>, inc: Seq<(TableMeta, ForeignKeyMeta, int)>, parent: TableMeta, rows: Seq<Seq<Seq<char>>>)
    ensures
        (exists|i: int| 0 <= i < rows.len() && (#[trigger] delete_check(cat, stored, inc, parent, seq![rows[i]], 0)) is Err)
            <==> delete_check(cat, stored, inc, parent, rows, 0) is Err,
{
    if exists|i: int| 0 <= i < rows.len() && (#[trigger] delete_check(cat, stored, inc, parent, seq![rows[i]], 0)) is Err {
        let i = choose|i: int| 0 <= i < rows.len() && (#[trigger] delete_check(cat, stored, inc, parent, seq![rows[i]], 0)) is Err;
        lemma_delete_check_single(cat, stored, inc, parent, rows[i]);
        lemma_delete_check_from(cat, stored, inc, parent, rows, 0, i);
    } else {
        assert forall|i: int| 0 <= i < rows.len() implies (#[trigger] delete_row_check(cat, stored, inc, parent, rows[i], 0)) is Ok by {
            lemma_delete_check_single(cat, stored, inc, parent, rows[i]);
            assert(!(delete_check(cat, stored, inc, parent, seq![rows[i]], 0) is Err));
        }
        lemma_delete_check_all_ok(cat, stored, inc, parent, rows, 0);
    }
}

/// A parent lookup scans every row: it finds a match exactly when, with no row before it in
/// error, some row holds the values; and it reports no match exactly when every row is read
/// without error and none holds them.
pub proof fn lemma_parent_lookup_scans_all(names: Seq<Seq<char>>, cols: Seq<Seq<char>>, vals: Seq<Seq<char>>, rows: Seq<Seq<Seq<char>>>, s: int)
    requires
        0 <= s <= rows.len(),
    ensures
        (some_row_holds(names, cols, vals, rows, s) == Ok::<bool, Seq<char>>(true)) <==> exists|i: int|
            s <= i < rows.len() && #[trigger] row_holds(names, cols, vals, rows[i], 0) == Ok::<bool, Seq<char>>(true)
                && forall|j: int| s <= j < i ==> #[trigger] row_holds(names, cols, vals, rows[j], 0) == Ok::<bool, Seq<char>>(false),
        (some_row_holds(names, cols, vals, rows, s) == Ok::<bool, Seq<char>>(false)) <==> forall|i: int|
            s <= i < rows.len() ==> #[trigger] row_holds(names, cols, vals, rows[i], 0) == Ok::<bool, Seq<char>>(false),
    decreases rows.len() - s,
{
    if s < rows.len() {
        lemma_parent_lookup_scans_all(names, cols, vals, rows, s + 1);
        let h = row_holds(names, cols, vals, rows[s], 0);
        if h == Ok::<bool, Seq<char>>(true) {
            assert(forall|j: int| s <= j < s ==> #[trigger] row_holds(names, cols, vals, rows[j], 0) == Ok::<bool, Seq<char>>(false));
        } else if h == Ok::<bool, Seq<char>>(false) {
            if exists|i: int|
                s + 1 <= i < rows.len() && #[trigger] row_holds(names, cols, vals, rows[i], 0) == Ok::<bool, Seq<char>>(true)
                    && forall|j: int| s + 1 <= j < i ==> #[trigger] row_holds(names, cols, vals, rows[j], 0) == Ok::<bool, Seq<char>>(false) {
                let i = choose|i: int|
                    s + 1 <= i < rows.len() && #[trigger] row_holds(names, cols, vals, rows[i], 0) == Ok::<bool, Seq<char>>(true)
                        && forall|j: int| s + 1 <= j < i ==> #[trigger] row_holds(names, cols, vals, rows[j], 0) == Ok::<bool, Seq<char>>(false);
                assert forall|j: int| s <= j < i implies #[trigger] row_holds(names, cols, vals, rows[j], 0) == Ok::<bool, Seq<char>>(false) by {
                    if j == s {
                    }
                }
            }
            if exists|i: int|
                s <= i < rows.len() && #[trigger] row_holds(names, cols, vals, rows[i], 0) == Ok::<bool, Seq<char>>(true)
                    && forall|j: int| s <= j < i ==> #[trigger] row_holds(names, cols, vals, rows[j], 0) == Ok::<bool, Seq<char>>(false) {
                let i = choose|i: int|
                    s <= i < rows.len() && #[trigger] row_holds(names, cols, vals, rows[i], 0) == Ok::<bool, Seq<char>>(true)
                        && forall|j: int| s <= j < i ==> #[trigger] row_holds(names, cols, vals, rows[j], 0) == Ok::<bool, Seq<char>>(false);
                assert(i != s);
                assert forall|j: int| s + 1 <= j < i implies #[trigger] row_holds(names, cols, vals, rows[j], 0) == Ok::<bool, Seq<char>>(false) by {
                }
            }
        } else {
            assert(!(forall|i: int| s <= i < rows.len() ==> #[trigger] row_holds(names, cols, vals, rows[i], 0) == Ok::<bool, Seq<char>>(false))) by {
                assert(row_holds(names, cols, vals, rows[s], 0) != Ok::<bool, Seq<char>>(false));
            }
            if exists|i: int|
                s <= i < rows.len() && #[trigger] row_holds(names, cols, vals, rows[i], 0) == Ok::<bool, Seq<char>>(true)
                    && forall|j: int| s <= j < i ==> #[trigger] row_holds(names, cols, vals, rows[j], 0) == Ok::<bool, Seq<char>>(false) {
                let i = choose|i: int|
                    s <= i < rows.len() && #[trigger] row_holds(names, cols, vals, rows[i], 0) == Ok::<bool, Seq<char>>(true)
                        && forall|j: int| s <= j < i ==> #[trigger] row_holds(names, cols, vals, rows[j], 0) == Ok::<bool, Seq<char>>(false);
                if i != s {
                    assert(row_holds(names, cols, vals, rows[s], 0) == Ok::<bool, Seq<char>>(false));
                }
            }
        }
    }
}

/// Whether the table has the column `col` and the row holds `val` in it.
pub open spec fn cell_holds(names: Seq<Seq<char>>, col: Seq<char>, val: Seq<char>, row: Seq<Seq<char>>) -> bool {
    match column_position(names, col) {
        Some(idx) => idx < row.len() && row[idx] == val,
        None => false,
    }
}

/// A row matches a key only on every one of its columns: the match holds exactly when, for
/// each column paired with a value, the table has the column and the row holds the value in it.
pub proof fn lemma_row_matches_every_column(names: Seq<Seq<char>>, cols: Seq<Seq<char>>, vals: Seq<Seq<char>>, row: Seq<Seq<char>>, k: int)
    requires
        0 <= k,
    ensures
        (row_holds(names, cols, vals, row, k) == Ok::<bool, Seq<char>>(true)) <==> forall|m: int|
            k <= m < cols.len() && m < vals.len() ==> #[trigger] cell_holds(names, cols[m], vals[m], row),
    decreases cols.len() - k,
{
    if k < cols.len() && k < vals.len() {
        lemma_row_matches_every_column(names, cols, vals, row, k + 1);
        if !cell_holds(names, cols[k], vals[k], row) {
            assert(!(forall|m: int| k <= m < cols.len() && m < vals.len() ==> #[trigger] cell_holds(names, cols[m], vals[m], row)));
        } else {
            if forall|m: int| k + 1 <= m < cols.len() && m < vals.len() ==> #[trigger] cell_holds(names, cols[m], vals[m], row) {
                assert forall|m: int| k <= m < cols.len() && m < vals.len() implies #[trigger] cell_holds(names, cols[m], vals[m], row) by {
                    if m == k {
                    }
                }
            }
        }
    }
}

proof fn lemma_values_of_ok_any_row(table: Seq<ColumnDef>, cols: Seq<Seq<char>>, a: Seq<Seq<char>>, b: Seq<Seq<char>>)
    ensures
        (values_of(table, cols, a) is Ok) == (values_of(table, cols, b) is Ok),
    decreases cols.len(),
{
    if cols.len() > 0 {
        lemma_values_of_ok_any_row(table, cols.drop_last(), a, b);
    }
}

/// Updating a row without changing it is never refused for a referencing child row.
pub proof fn lemma_unchanged_update_not_refused(cat: MessageCatalog, stored: Map<Seq<char>, Vec<Row>>, inc: Seq<(TableMeta, ForeignKeyMeta, int)>, meta: TableMeta, row: Seq<Seq<char>>, j: int)
    requires
        0 <= j,
    ensures
        !(update_check(cat, stored, inc, meta, row, row, j) matches Err(FkFailure::Violation(_, _))),
    decreases inc.len() - j,
{
    if j < inc.len() {
        lemma_unchanged_update_not_refused(cat, stored, inc, meta, row, j + 1);
    }
}

/// On the parent side an update is never stricter than a delete: where deleting the old row
/// passes every referencing key, changing it to any new row passes them too.
pub proof fn lemma_update_no_stricter_than_delete(cat: MessageCatalog, stored: Map<Seq<char>, Vec<Row>>, inc: Seq<(TableMeta, ForeignKeyMeta, int)>, meta: TableMeta, old: Seq<Seq<char>>, new: Seq<Seq<char>>, j: int)
    requires
        0 <= j,
        delete_row_check(cat, stored, inc, meta, old, j) is Ok,
    ensures
        update_check(cat, stored, inc, meta, old, new, j) is Ok,
    decreases inc.len() - j,
{
    if j < inc.len() {
        let (child, fk, idx) = inc[j];
        lemma_values_of_ok_any_row(meta.columns@, texts(fk.referenced_columns@), old, new);
        lemma_update_no_stricter_than_delete(cat, stored, inc, meta, old, new, j + 1);
    }
}
} // verus!

