//! Statement results and execution errors.
use vstd::prelude::*;
use crate::catalog::texts;

verus! {

/// A row of a result set: one text cell per column.
pub type Row = Vec<String>;

/// The outcome of one statement: a count of affected rows, or named columns with rows.
#[derive(Debug, Clone, PartialEq, Eq)]
pub enum QueryResult {
    Affected { rows_affected: u64 },
    Rows { columns: Vec<String>, rows: Vec<Row> },
}

/// What the storage layer reports.
#[derive(Debug, Clone, PartialEq, Eq)]
pub enum StorageError {
    /// No table (or view) of that name.
    TableNotFound(String),
    /// No database of that name.
    DatabaseNotFound(String),
}

/// Why a statement failed.
#[derive(Debug, Clone, PartialEq, Eq)]
pub enum ExecError {
    /// A plain message.
    Message(String),
    /// A MySQL error number with its message.
    Mysql { code: u16, message: String },
    /// A failure of the storage layer.
    Storage(StorageError),
}

/// The cells of each row, as text.
pub open spec fn rows_view(rows: Seq<Row>) -> Seq<Seq<Seq<char>>> {
    Seq::new(rows.len(), |i: int| texts(rows[i]@))
}

/// Appending a row appends its texts.
pub proof fn lemma_rows_view_push(rows: Seq<Row>, row: Row)
    ensures
        rows_view(rows.push(row)) == rows_view(rows).push(texts(row@)),
{
    assert(rows_view(rows.push(row)) =~= rows_view(rows).push(texts(row@)));
}

/// Appending a string appends its text.
pub proof fn lemma_texts_push(v: Seq<String>, s: String)
    ensures
        texts(v.push(s)) == texts(v).push(s@),
{
    assert(texts(v.push(s)) =~= texts(v).push(s@));
}

/// Whether `r` is a result set with these column names and rows.
pub open spec fn is_rows(r: QueryResult, columns: Seq<Seq<char>>, rows: Seq<Seq<Seq<char>>>) -> bool {
    r matches QueryResult::Rows { columns: c, rows: rs } && texts(c@) == columns && rows_view(rs@)
        == rows
}

} // verus!
