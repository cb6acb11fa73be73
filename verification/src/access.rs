//! Access-path choice for a simple single-table `SELECT` (the `EXPLAIN` row).
use vstd::prelude::*;
use crate::text::{decimal, eq_ignore_ascii_case, eq_ignore_case_seq, owned, u64_to_string};
use crate::catalog::texts;
use crate::results::{is_rows, QueryResult, Row};

verus! {

/// `EXPLAIN`'s `type` column (subset).
#[derive(Debug, Clone, Copy, PartialEq, Eq)]
pub enum AccessType {
    All,
    Const,
    Ref,
    Range,
}

impl AccessType {
    /// The `EXPLAIN` text.
    pub fn as_str(self) -> (r: &'static str)
        ensures
            r@ == match self {
                AccessType::All => "ALL"@,
                AccessType::Const => "const"@,
                AccessType::Ref => "ref"@,
                AccessType::Range => "range"@,
            },
    {
        match self {
            AccessType::All => "ALL",
            AccessType::Const => "const",
            AccessType::Ref => "ref",
            AccessType::Range => "range",
        }
    }
}

/// A single-column index.
#[derive(Debug, Clone, PartialEq, Eq)]
pub struct IndexInfo {
    pub name: String,
    pub column: String,
}

/// One `EXPLAIN` row.
#[derive(Debug, Clone, PartialEq, Eq)]
pub struct ExplainPlanRow {
    pub id: u32,
    pub select_type: String,
    pub table: String,
    pub access_type: AccessType,
    pub key: Option<String>,
    pub rows: u64,
    pub extra: String,
}

/// What the access path reads of a `WHERE` clause: `column = literal`, `column BETWEEN
/// literal AND literal`, or anything else.
#[derive(Debug, Clone, PartialEq, Eq)]
pub enum Predicate {
    Eq { column: String, value: String },
    Between { column: String },
    Other,
}

/// Position of the first index on `column` (any ASCII case).
pub open spec fn index_for(indexes: Seq<IndexInfo>, column: Seq<char>, i: int) -> Option<int>
    decreases indexes.len() - i,
{
    if i < 0 || i >= indexes.len() {
        None
    } else if eq_ignore_case_seq(indexes[i].column@, column) {
        Some(i)
    } else {
        index_for(indexes, column, i + 1)
    }
}

fn find_index(indexes: &[IndexInfo], column: &str) -> (r: Option<usize>)
    ensures
        r matches Some(k) ==> index_for(indexes@, column@, 0) == Some(k as int) && k < indexes@.len(),
        r is None ==> index_for(indexes@, column@, 0) is None,
{
    let mut i: usize = 0;
    while i < indexes.len()
        invariant
            i <= indexes@.len(),
            index_for(indexes@, column@, 0) == index_for(indexes@, column@, i as int),
        decreases indexes@.len() - i,
    {
        if eq_ignore_ascii_case(indexes[i].column.as_str(), column) {
            return Some(i);
        }
        i = i + 1;
    }
    None
}

/// The access type, the index used (its position) and the estimated rows: an equality on an
/// indexed column is `const` for a non-empty literal on `PRIMARY`, else `ref`, one row; a
/// `BETWEEN` on an indexed column is `range`, a tenth of the rows (at least one); anything
/// else scans all rows.
pub open spec fn access_spec(
    selection: Option<Predicate>,
    indexes: Seq<IndexInfo>,
    row_count: u64,
) -> (AccessType, Option<int>, u64) {
    match selection {
        None => (AccessType::All, None, row_count),
        Some(Predicate::Eq { column, value }) => match index_for(indexes, column@, 0) {
            Some(k) => (if eq_ignore_case_seq(indexes[k].name@, "PRIMARY"@) && value@.len() > 0 {
                AccessType::Const
            } else {
                AccessType::Ref
            }, Some(k), 1),
            None => (AccessType::All, None, row_count),
        },
        Some(Predicate::Between { column }) => match index_for(indexes, column@, 0) {
            Some(k) => (AccessType::Range, Some(k), if row_count / 10 > 1 {
                (row_count / 10) as u64
            } else {
                1
            }),
            None => (AccessType::All, None, row_count),
        },
        Some(Predicate::Other) => (AccessType::All, None, row_count),
    }
}

/// The `EXPLAIN` row of a simple single-table `SELECT` over `table` with `row_count` rows.
pub fn explain_simple_select(
    table: &str,
    selection: Option<&Predicate>,
    indexes: &[IndexInfo],
    row_count: u64,
) -> (r: ExplainPlanRow)
    ensures
        ({
            let rc = if row_count > 1 {
                row_count
            } else {
                1
            };
            let (t, k, n) = access_spec(
                match selection {
                    Some(p) => Some(*p),
                    None => None,
                },
                indexes@,
                rc,
            );
            &&& r.id == 1
            &&& r.select_type@ == "SIMPLE"@
            &&& r.table@ == table@
            &&& r.access_type == t
            &&& r.rows == n
            &&& r.extra@ == Seq::<char>::empty()
            &&& match k {
                Some(i) => r.key matches Some(s) && s@ == indexes@[i].name@,
                None => r.key is None,
            }
        }),
{
    let rc = if row_count > 1 {
        row_count
    } else {
        1
    };
    let (access_type, key, rows): (AccessType, Option<String>, u64) = match selection {
        None => (AccessType::All, None, rc),
        Some(Predicate::Eq { column, value }) => match find_index(indexes, column.as_str()) {
            Some(k) => {
                let t = if eq_ignore_ascii_case(indexes[k].name.as_str(), "PRIMARY")
                    && !value.as_str().is_empty() {
                    AccessType::Const
                } else {
                    AccessType::Ref
                };
                (t, Some(owned(indexes[k].name.as_str())), 1)
            },
            None => (AccessType::All, None, rc),
        },
        Some(Predicate::Between { column }) => match find_index(indexes, column.as_str()) {
            Some(k) => {
                let est = if rc / 10 > 1 {
                    rc / 10
                } else {
                    1
                };
                (AccessType::Range, Some(owned(indexes[k].name.as_str())), est)
            },
            None => (AccessType::All, None, rc),
        },
        Some(Predicate::Other) => (AccessType::All, None, rc),
    };
    ExplainPlanRow {
        id: 1,
        select_type: owned("SIMPLE"),
        table: owned(table),
        access_type,
        key,
        rows,
        extra: String::new(),
    }
}


/// The text of an access type.
pub open spec fn access_text(t: AccessType) -> Seq<char> {
    match t {
        AccessType::All => "ALL"@,
        AccessType::Const => "const"@,
        AccessType::Ref => "ref"@,
        AccessType::Range => "range"@,
    }
}

/// The columns of an `EXPLAIN` result.
pub open spec fn explain_columns() -> Seq<Seq<char>> {
    seq!["id"@, "select_type"@, "table"@, "type"@, "key"@, "rows"@]
}

/// The one row of an `EXPLAIN` result for `plan`: the key empty when none is used.
pub open spec fn explain_row(plan: ExplainPlanRow) -> Seq<Seq<char>> {
    seq![
        decimal(plan.id as nat),
        plan.select_type@,
        plan.table@,
        access_text(plan.access_type),
        match plan.key {
            Some(k) => k@,
            None => Seq::<char>::empty(),
        },
        decimal(plan.rows as nat),
    ]
}

/// The result set of `EXPLAIN` for one plan row.
pub fn plan_to_rows(plan: &ExplainPlanRow) -> (r: QueryResult)
    ensures
        is_rows(r, explain_columns(), seq![explain_row(*plan)]),
{
    let mut row: Row = Vec::new();
    row.push(u64_to_string(plan.id as u64));
    row.push(owned(plan.select_type.as_str()));
    row.push(owned(plan.table.as_str()));
    row.push(owned(plan.access_type.as_str()));
    row.push(match &plan.key {
        Some(k) => owned(k.as_str()),
        None => owned(""),
    });
    row.push(u64_to_string(plan.rows));
    let mut columns: Vec<String> = Vec::new();
    columns.push(owned("id"));
    columns.push(owned("select_type"));
    columns.push(owned("table"));
    columns.push(owned("type"));
    columns.push(owned("key"));
    columns.push(owned("rows"));
    proof {
        reveal_strlit("");
        assert(row@[0]@ == decimal(plan.id as nat));
        assert(row@[3]@ == access_text(plan.access_type));
        assert(row@[4]@ == explain_row(*plan)[4]);
        assert(row@[5]@ == decimal(plan.rows as nat));
        assert(texts(row@) =~= explain_row(*plan));
        assert(texts(columns@) =~= explain_columns());
    }
    let rows: Vec<Row> = vec![row];
    proof {
        assert(crate::results::rows_view(rows@) =~= seq![explain_row(*plan)]);
    }
    QueryResult::Rows { columns, rows }
}

/// `EXPLAIN` of a simple single-table `SELECT` over `table`, given the row count the engine
/// reports for it (one when it reports none): the plan row of `explain_simple_select` as a
/// result set.
pub fn explain_select(
    table: &str,
    selection: Option<&Predicate>,
    indexes: &[IndexInfo],
    row_count: Option<u64>,
) -> (r: QueryResult)
    ensures
        exists|plan: ExplainPlanRow|
            #![trigger explain_row(plan)]
            is_rows(r, explain_columns(), seq![explain_row(plan)]) && ({
                let rc0: u64 = match row_count {
                    Some(n) => n,
                    None => 1,
                };
                let rc = if rc0 > 1 { rc0 } else { 1 };
                let (t, k, n) = access_spec(
                    match selection {
                        Some(p) => Some(*p),
                        None => None,
                    },
                    indexes@,
                    rc,
                );
                &&& plan.id == 1
                &&& plan.select_type@ == "SIMPLE"@
                &&& plan.table@ == table@
                &&& plan.access_type == t
                &&& plan.rows == n
                &&& match k {
                    Some(i) => plan.key matches Some(s) && s@ == indexes@[i].name@,
                    None => plan.key is None,
                }
            }),
{
    let rc = match row_count {
        Some(n) => n,
        None => 1,
    };
    let plan = explain_simple_select(table, selection, indexes, rc);
    let r = plan_to_rows(&plan);
    proof {
        assert(explain_row(plan) == explain_row(plan));
    }
    r
}
} // verus!
