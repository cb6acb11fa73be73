//! The last steps of a query: `DISTINCT`, `ORDER BY` (a stable sort on column texts),
//! `LIMIT` / `OFFSET`, and the projection and names of the output columns.
use vstd::prelude::*;
use crate::catalog::texts;
use crate::info_schema::{arrange, copy_row, join_texts};
use crate::privileges::join;
use crate::results::{lemma_rows_view_push, rows_view, ExecError, QueryResult, Row};
use crate::sorting::{lemma_text_irreflexive, lemma_text_total, lemma_text_transitive, str_less, text_less};
use crate::text::{decimal, owned, parse_in_range, parse_u64, str_eq, string_from_chars, u64_to_string};
use crate::where_filter::{column_position, ExprKind, FilterExpr};
use crate::executor::push_str;

verus! {

/// The text that identifies a row for `DISTINCT`: its cells joined by the unit separator.
pub open spec fn row_key(row: Seq<Seq<char>>) -> Seq<char> {
    join(row, seq!['\u{1f}'])
}

/// The rows whose key no earlier row has, in order.
pub open spec fn distinct_rows(rows: Seq<Seq<Seq<char>>>) -> Seq<Seq<Seq<char>>>
    decreases rows.len(),
{
    if rows.len() == 0 {
        Seq::empty()
    } else {
        let rest = distinct_rows(rows.drop_last());
        if exists|i: int| 0 <= i < rows.len() - 1 && row_key(#[trigger] rows[i]) == row_key(rows.last()) {
            rest
        } else {
            rest.push(rows.last())
        }
    }
}

/// `DISTINCT`: the first of the rows with each key, in order.
pub fn dedupe_rows(rows: Vec<Row>) -> (r: Vec<Row>)
    ensures
        rows_view(r@) == distinct_rows(rows_view(rows@)),
{
    let ghost all = rows_view(rows@);
    let mut seen: Vec<String> = Vec::new();
    let mut out: Vec<Row> = Vec::new();
    let mut i: usize = 0;
    proof {
        assert(all.take(0) =~= Seq::<Seq<Seq<char>>>::empty());
    }
    while i < rows.len()
        invariant
            i <= rows@.len(),
            all == rows_view(rows@),
            rows_view(out@) == distinct_rows(all.take(i as int)),
            forall|k: Seq<char>| texts(seen@).contains(k) <==> exists|j: int| 0 <= j < i && row_key(#[trigger] all[j]) == k,
        decreases rows@.len() - i,
    {
        let row = &rows[i];
        let key = join_texts(row, "\u{1f}");
        proof {
            reveal_strlit("\u{1f}");
            assert("\u{1f}"@ =~= seq!['\u{1f}']);
            assert(all[i as int] == texts(row@));
            assert(key@ == row_key(all[i as int]));
            assert(all.take(i + 1).drop_last() =~= all.take(i as int));
            assert(all.take(i + 1).last() == all[i as int]);
        }
        let mut found = false;
        let mut k: usize = 0;
        while k < seen.len()
            invariant
                k <= seen@.len(),
                found == exists|t: int| 0 <= t < k && seen@[t]@ == key@,
            decreases seen@.len() - k,
        {
            if str_eq(seen[k].as_str(), key.as_str()) {
                found = true;
            }
            k = k + 1;
        }
        proof {
            assert(found == texts(seen@).contains(key@)) by {
                if found {
                    let t = choose|t: int| 0 <= t < seen@.len() && seen@[t]@ == key@;
                    assert(texts(seen@)[t] == key@);
                }
                if texts(seen@).contains(key@) {
                    let t = choose|t: int| 0 <= t < texts(seen@).len() && texts(seen@)[t] == key@;
                    assert(seen@[t]@ == key@);
                }
            }
            assert(found == exists|j: int| 0 <= j < all.take(i + 1).len() - 1 && row_key(#[trigger] all.take(i + 1)[j]) == row_key(all.take(i + 1).last())) by {
                if found {
                    let j = choose|j: int| 0 <= j < i && row_key(#[trigger] all[j]) == key@;
                    assert(all.take(i + 1)[j] == all[j]);
                }
                if exists|j: int| 0 <= j < all.take(i + 1).len() - 1 && row_key(#[trigger] all.take(i + 1)[j]) == row_key(all.take(i + 1).last()) {
                    let j = choose|j: int| 0 <= j < all.take(i + 1).len() - 1 && row_key(#[trigger] all.take(i + 1)[j]) == row_key(all.take(i + 1).last());
                    assert(all.take(i + 1)[j] == all[j]);
                }
            }
        }
        if !found {
            let c = copy_row(row);
            proof {
                lemma_rows_view_push(out@, c);
            }
            out.push(c);
            let ghost before = seen@;
            seen.push(key);
            proof {
                assert forall|kk: Seq<char>| texts(seen@).contains(kk) <==> exists|j: int| 0 <= j < i + 1 && row_key(#[trigger] all[j]) == kk by {
                    if texts(seen@).contains(kk) {
                        let t = choose|t: int| 0 <= t < texts(seen@).len() && texts(seen@)[t] == kk;
                        if t < before.len() {
                            assert(texts(before)[t] == kk);
                            assert(texts(before).contains(kk));
                        } else {
                            assert(row_key(all[i as int]) == kk);
                        }
                    }
                    if exists|j: int| 0 <= j < i + 1 && row_key(#[trigger] all[j]) == kk {
                        let j = choose|j: int| 0 <= j < i + 1 && row_key(#[trigger] all[j]) == kk;
                        if j < i {
                            assert(texts(before).contains(kk));
                            let t = choose|t: int| 0 <= t < texts(before).len() && texts(before)[t] == kk;
                            assert(texts(seen@)[t] == kk);
                        } else {
                            assert(texts(seen@)[before.len() as int] == kk);
                        }
                    }
                }
            }
        } else {
            proof {
                assert forall|kk: Seq<char>| texts(seen@).contains(kk) <==> exists|j: int| 0 <= j < i + 1 && row_key(#[trigger] all[j]) == kk by {
                    if exists|j: int| 0 <= j < i + 1 && row_key(#[trigger] all[j]) == kk {
                        let j = choose|j: int| 0 <= j < i + 1 && row_key(#[trigger] all[j]) == kk;
                        if j == i {
                            assert(exists|j2: int| 0 <= j2 < i && row_key(#[trigger] all[j2]) == kk);
                        }
                    }
                }
            }
        }
        i = i + 1;
    }
    proof {
        assert(all.take(i as int) =~= all);
    }
    out
}

/// The first `limit` rows, all without a limit.
pub open spec fn limited(rows: Seq<Seq<Seq<char>>>, limit: Option<usize>) -> Seq<Seq<Seq<char>>> {
    match limit {
        Some(n) => if n < rows.len() {
            rows.take(n as int)
        } else {
            rows
        },
        None => rows,
    }
}

/// A copy of the rows from `lo` to `hi`.
fn copy_range(rows: &Vec<Row>, lo: usize, hi: usize) -> (r: Vec<Row>)
    requires
        lo <= hi <= rows@.len(),
    ensures
        rows_view(r@) == rows_view(rows@).subrange(lo as int, hi as int),
{
    let mut out: Vec<Row> = Vec::new();
    let mut i = lo;
    while i < hi
        invariant
            lo <= i <= hi <= rows@.len(),
            rows_view(out@) == rows_view(rows@).subrange(lo as int, i as int),
        decreases hi - i,
    {
        let c = copy_row(&rows[i]);
        proof {
            lemma_rows_view_push(out@, c);
            assert(rows_view(rows@).subrange(lo as int, i + 1) =~= rows_view(rows@).subrange(lo as int, i as int).push(
                texts(rows@[i as int]@),
            ));
        }
        out.push(c);
        i = i + 1;
    }
    out
}

/// `LIMIT n`: the first `n` rows.
pub fn apply_limit(rows: Vec<Row>, limit: Option<usize>) -> (r: Vec<Row>)
    ensures
        rows_view(r@) == limited(rows_view(rows@), limit),
{
    match limit {
        Some(n) => {
            let hi = if n < rows.len() {
                n
            } else {
                rows.len()
            };
            let out = copy_range(&rows, 0, hi);
            proof {
                if n >= rows@.len() {
                    assert(rows_view(rows@).subrange(0, hi as int) =~= rows_view(rows@));
                } else {
                    assert(rows_view(rows@).subrange(0, hi as int) =~= rows_view(rows@).take(n as int));
                }
            }
            out
        },
        None => rows,
    }
}

/// The rows after the first `offset`, then at most `limit` of them.
pub open spec fn paginated(rows: Seq<Seq<Seq<char>>>, offset: Option<usize>, limit: Option<usize>) -> Seq<Seq<Seq<char>>> {
    limited(
        match offset {
            Some(n) => if n < rows.len() {
                rows.skip(n as int)
            } else {
                Seq::empty()
            },
            None => rows,
        },
        limit,
    )
}

/// `LIMIT` / `OFFSET`.
pub fn apply_pagination(rows: Vec<Row>, offset: Option<usize>, limit: Option<usize>) -> (r: Vec<Row>)
    ensures
        rows_view(r@) == paginated(rows_view(rows@), offset, limit),
{
    let rest = match offset {
        Some(n) => {
            let lo = if n < rows.len() {
                n
            } else {
                rows.len()
            };
            let out = copy_range(&rows, lo, rows.len());
            proof {
                if n >= rows@.len() {
                    assert(rows_view(rows@).subrange(lo as int, rows@.len() as int) =~= Seq::<Seq<Seq<char>>>::empty());
                } else {
                    assert(rows_view(rows@).subrange(lo as int, rows@.len() as int) =~= rows_view(rows@).skip(n as int));
                }
            }
            out
        },
        None => rows,
    };
    apply_limit(rest, limit)
}

/// Rust's `str::parse::<usize>`.
pub open spec fn usize_of(s: Seq<char>) -> Option<int> {
    parse_in_range(s, 0, usize::MAX as int)
}

/// `str::parse::<usize>`.
fn parse_usize(s: &str) -> (r: Option<usize>)
    ensures
        match usize_of(s@) {
            Some(v) => r matches Some(x) && x == v,
            None => r is None,
        },
{
    match parse_u64(s) {
        Some(v) => if v <= usize::MAX as u64 {
            Some(v as usize)
        } else {
            None
        },
        None => None,
    }
}

/// The count a `LIMIT` or `OFFSET` clause gives: a number, parsed as a `usize`; an error for
/// one that does not parse (`invalid … value`) or for any other expression.
pub open spec fn count_clause(e: Option<FilterExpr>, what: Seq<char>) -> Result<Option<int>, Seq<char>> {
    match e {
        None => Ok(None),
        Some(x) => match x.kind {
            ExprKind::Number(n) => match usize_of(n@) {
                Some(v) => Ok(Some(v)),
                None => Err("invalid "@ + what + " value"@),
            },
            _ => Err("unsupported "@ + what + ": "@ + x.text@),
        },
    }
}

/// The count a `LIMIT` or `OFFSET` clause gives.
fn count_of(e: Option<&FilterExpr>, what: &str) -> (r: Result<Option<usize>, ExecError>)
    ensures
        match count_clause(
            match e {
                Some(x) => Some(*x),
                None => None,
            },
            what@,
        ) {
            Ok(None) => r matches Ok(None),
            Ok(Some(v)) => r matches Ok(Some(x)) && x == v,
            Err(m) => r matches Err(ExecError::Message(x)) && x@ == m,
        },
{
    match e {
        None => Ok(None),
        Some(x) => match &x.kind {
            ExprKind::Number(n) => match parse_usize(n.as_str()) {
                Some(v) => Ok(Some(v)),
                None => {
                    let mut out: Vec<char> = Vec::new();
                    push_str(&mut out, "invalid ");
                    push_str(&mut out, what);
                    push_str(&mut out, " value");
                    Err(ExecError::Message(string_from_chars(out.as_slice())))
                },
            },
            _ => {
                let mut out: Vec<char> = Vec::new();
                push_str(&mut out, "unsupported ");
                push_str(&mut out, what);
                push_str(&mut out, ": ");
                push_str(&mut out, x.text.as_str());
                Err(ExecError::Message(string_from_chars(out.as_slice())))
            },
        },
    }
}

/// The count of an `OFFSET` clause.
pub fn extract_offset(offset: Option<&FilterExpr>) -> (r: Result<Option<usize>, ExecError>)
    ensures
        match count_clause(
            match offset {
                Some(x) => Some(*x),
                None => None,
            },
            "OFFSET"@,
        ) {
            Ok(None) => r matches Ok(None),
            Ok(Some(v)) => r matches Ok(Some(x)) && x == v,
            Err(m) => r matches Err(ExecError::Message(x)) && x@ == m,
        },
{
    count_of(offset, "OFFSET")
}

/// The count of a `LIMIT` clause.
pub fn extract_limit(limit: Option<&FilterExpr>) -> (r: Result<Option<usize>, ExecError>)
    ensures
        match count_clause(
            match limit {
                Some(x) => Some(*x),
                None => None,
            },
            "LIMIT"@,
        ) {
            Ok(None) => r matches Ok(None),
            Ok(Some(v)) => r matches Ok(Some(x)) && x == v,
            Err(m) => r matches Err(ExecError::Message(x)) && x@ == m,
        },
{
    count_of(limit, "LIMIT")
}

/// The rows reduced to the cells at `indices`.
pub open spec fn projected(rows: Seq<Seq<Seq<char>>>, indices: Seq<usize>) -> Seq<Seq<Seq<char>>> {
    Seq::new(rows.len(), |r: int| Seq::new(indices.len(), |k: int| rows[r][indices[k] as int]))
}

/// The rows reduced to the cells at `indices`.
fn project_rows(rows: Vec<Row>, indices: &Vec<usize>) -> (r: Vec<Row>)
    requires
        forall|r: int, k: int| 0 <= r < rows@.len() && 0 <= k < indices@.len() ==> indices@[k] < rows@[r]@.len(),
    ensures
        rows_view(r@) == projected(rows_view(rows@), indices@),
{
    let ghost all = rows_view(rows@);
    let mut out: Vec<Row> = Vec::new();
    let mut i: usize = 0;
    while i < rows.len()
        invariant
            i <= rows@.len(),
            all == rows_view(rows@),
            forall|r: int, k: int| 0 <= r < rows@.len() && 0 <= k < indices@.len() ==> indices@[k] < rows@[r]@.len(),
            rows_view(out@) == projected(all, indices@).take(i as int),
        decreases rows@.len() - i,
    {
        let row = &rows[i];
        let mut p: Row = Vec::new();
        let mut k: usize = 0;
        while k < indices.len()
            invariant
                k <= indices@.len(),
                i < rows@.len(),
                *row == rows@[i as int],
                forall|kk: int| 0 <= kk < indices@.len() ==> indices@[kk] < row@.len(),
                texts(p@) == Seq::new(k as nat, |t: int| texts(row@)[indices@[t] as int]),
            decreases indices@.len() - k,
        {
            let c = owned(row[indices[k]].as_str());
            proof {
                crate::results::lemma_texts_push(p@, c);
            }
            p.push(c);
            k = k + 1;
            proof {
                assert(texts(p@) =~= Seq::new(k as nat, |t: int| texts(row@)[indices@[t] as int]));
            }
        }
        proof {
            lemma_rows_view_push(out@, p);
            assert(texts(p@) =~= projected(all, indices@)[i as int]);
            assert(projected(all, indices@).take(i + 1) =~= projected(all, indices@).take(i as int).push(texts(p@)));
        }
        out.push(p);
        i = i + 1;
    }
    proof {
        assert(projected(all, indices@).take(i as int) =~= projected(all, indices@));
    }
    out
}

/// `col1`, `col2`, … for `n` unnamed columns.
pub open spec fn numbered_columns(n: int) -> Seq<Seq<char>> {
    Seq::new(n as nat, |i: int| "col"@ + decimal((i + 1) as nat))
}

/// The output columns: those named by the query, else the table's, else `col1…` after the
/// first row's width (none without rows).
pub open spec fn output_columns(out_columns: Seq<Seq<char>>, table_columns: Seq<Seq<char>>, rows: Seq<Seq<Seq<char>>>) -> Seq<Seq<char>> {
    if out_columns.len() == 0 && table_columns.len() == 0 {
        if rows.len() == 0 {
            Seq::empty()
        } else {
            numbered_columns(rows[0].len() as int)
        }
    } else if out_columns.len() == 0 {
        table_columns
    } else {
        out_columns
    }
}

/// The columns and rows of a `SELECT`: the output column names, and the rows reduced to the
/// projected cells when there is a projection.
pub fn finalize_select_rows(
    out_columns: Vec<String>,
    proj_indices: Option<Vec<usize>>,
    table_columns: Vec<String>,
    rows: Vec<Row>,
) -> (r: Result<(Vec<String>, Vec<Row>), ExecError>)
    requires
        proj_indices matches Some(ix) ==> forall|r: int, k: int| 0 <= r < rows@.len() && 0 <= k < ix@.len() ==> ix@[k] < rows@[r]@.len(),
    ensures
        r matches Ok((c, rs)) && texts(c@) == output_columns(texts(out_columns@), texts(table_columns@), rows_view(rows@))
            && rows_view(rs@) == match proj_indices {
            Some(ix) => projected(rows_view(rows@), ix@),
            None => rows_view(rows@),
        },
{
    let ghost rv = rows_view(rows@);
    let columns = if out_columns.len() == 0 && table_columns.len() == 0 {
        if rows.len() == 0 {
            let v: Vec<String> = Vec::new();
            proof {
                assert(texts(v@) =~= Seq::<Seq<char>>::empty());
            }
            v
        } else {
            let width = rows[0].len();
            let mut v: Vec<String> = Vec::new();
            let mut i: usize = 0;
            while i < width
                invariant
                    i <= width,
                    width == rows@[0]@.len(),
                    texts(v@) == numbered_columns(i as int),
                decreases width - i,
            {
                let mut name: Vec<char> = Vec::new();
                push_str(&mut name, "col");
                push_str(&mut name, u64_to_string(i as u64 + 1).as_str());
                let s = string_from_chars(name.as_slice());
                proof {
                    crate::results::lemma_texts_push(v@, s);
                }
                v.push(s);
                i = i + 1;
                proof {
                    assert(texts(v@) =~= numbered_columns(i as int));
                }
            }
            proof {
                assert(rv[0].len() == width);
            }
            v
        }
    } else if out_columns.len() == 0 {
        table_columns
    } else {
        out_columns
    };
    let out = match proj_indices {
        Some(ix) => project_rows(rows, &ix),
        None => rows,
    };
    Ok((columns, out))
}


/// A sort key of `ORDER BY`: a column position and the direction.
#[derive(Debug, Clone, Copy, PartialEq, Eq, Structural)]
pub struct SortKey {
    pub col_idx: usize,
    pub ascending: bool,
}

/// An `ORDER BY` item: the expression, `ASC`/`DESC` if given, `NULLS FIRST/LAST` if given.
#[derive(Debug)]
pub struct OrderByItem {
    pub expr: FilterExpr,
    pub asc: Option<bool>,
    pub nulls_first: Option<bool>,
}

/// The cell a sort key reads: empty when the row is shorter.
pub open spec fn sort_cell(row: Seq<Seq<char>>, c: int) -> Seq<char> {
    if 0 <= c < row.len() {
        row[c]
    } else {
        Seq::empty()
    }
}

/// Whether row `a` sorts before row `b`: by the first key whose cells differ, in code-point
/// order, reversed for a descending key.
pub open spec fn row_before(a: Seq<Seq<char>>, b: Seq<Seq<char>>, keys: Seq<SortKey>) -> bool
    decreases keys.len(),
{
    if keys.len() == 0 {
        false
    } else {
        let x = sort_cell(a, keys[0].col_idx as int);
        let y = sort_cell(b, keys[0].col_idx as int);
        if x != y {
            if keys[0].ascending {
                text_less(x, y)
            } else {
                text_less(y, x)
            }
        } else {
            row_before(a, b, keys.drop_first())
        }
    }
}

/// Whether two rows agree on every sort key.
pub open spec fn same_keys(a: Seq<Seq<char>>, b: Seq<Seq<char>>, keys: Seq<SortKey>) -> bool {
    forall|k: int| 0 <= k < keys.len() ==> sort_cell(a, #[trigger] keys[k].col_idx as int) == sort_cell(b, keys[k].col_idx as int)
}

proof fn lemma_before_order(a: Seq<Seq<char>>, b: Seq<Seq<char>>, keys: Seq<SortKey>)
    ensures
        !row_before(a, a, keys),
        !(row_before(a, b, keys) && row_before(b, a, keys)),
        !same_keys(a, b, keys) ==> row_before(a, b, keys) || row_before(b, a, keys),
        same_keys(a, b, keys) ==> !row_before(a, b, keys),
    decreases keys.len(),
{
    if keys.len() > 0 {
        let rest = keys.drop_first();
        lemma_before_order(a, b, rest);
        lemma_before_order(a, a, rest);
        let x = sort_cell(a, keys[0].col_idx as int);
        let y = sort_cell(b, keys[0].col_idx as int);
        lemma_text_total(x, y);
        lemma_text_irreflexive(x);
        if same_keys(a, b, rest) && x == y {
            assert forall|k: int| 0 <= k < keys.len() implies sort_cell(a, #[trigger] keys[k].col_idx as int) == sort_cell(b, keys[k].col_idx as int) by {
                if k > 0 {
                    assert(keys[k] == rest[k - 1]);
                }
            }
        }
        if same_keys(a, b, keys) {
            assert(sort_cell(a, keys[0].col_idx as int) == sort_cell(b, keys[0].col_idx as int));
            assert forall|k: int| 0 <= k < rest.len() implies sort_cell(a, #[trigger] rest[k].col_idx as int) == sort_cell(b, rest[k].col_idx as int) by {
                assert(rest[k] == keys[k + 1]);
            }
        }
    }
}

proof fn lemma_before_transitive(a: Seq<Seq<char>>, b: Seq<Seq<char>>, c: Seq<Seq<char>>, keys: Seq<SortKey>)
    requires
        row_before(a, b, keys),
        row_before(b, c, keys),
    ensures
        row_before(a, c, keys),
    decreases keys.len(),
{
    if keys.len() > 0 {
        let k0 = keys[0].col_idx as int;
        let x = sort_cell(a, k0);
        let y = sort_cell(b, k0);
        let z = sort_cell(c, k0);
        if x == y && y == z {
            lemma_before_transitive(a, b, c, keys.drop_first());
        } else if x == y {
        } else if y == z {
        } else {
            if keys[0].ascending {
                lemma_text_transitive(x, y, z);
                lemma_text_irreflexive(x);
            } else {
                lemma_text_transitive(z, y, x);
                lemma_text_irreflexive(x);
            }
        }
    }
}

/// Whether row `a` sorts before row `b`.
fn row_before_exec(a: &Row, b: &Row, keys: &Vec<SortKey>) -> (r: bool)
    ensures
        r == row_before(texts(a@), texts(b@), keys@),
{
    let ghost ta = texts(a@);
    let ghost tb = texts(b@);
    let mut k: usize = 0;
    proof {
        assert(keys@.skip(0) =~= keys@);
    }
    while k < keys.len()
        invariant
            k <= keys@.len(),
            ta == texts(a@),
            tb == texts(b@),
            row_before(ta, tb, keys@) == row_before(ta, tb, keys@.skip(k as int)),
        decreases keys@.len() - k,
    {
        let key = keys[k];
        let c = key.col_idx;
        let x = if c < a.len() {
            a[c].as_str()
        } else {
            ""
        };
        let y = if c < b.len() {
            b[c].as_str()
        } else {
            ""
        };
        proof {
            reveal_strlit("");
            assert(keys@.skip(k as int)[0] == key);
            assert(x@ == sort_cell(ta, c as int));
            assert(y@ == sort_cell(tb, c as int));
            assert(keys@.skip(k as int).drop_first() =~= keys@.skip(k + 1));
        }
        if !str_eq(x, y) {
            return if key.ascending {
                str_less(x, y)
            } else {
                str_less(y, x)
            };
        }
        k = k + 1;
    }
    false
}

/// `order` lists each index of `rows` once, sorted by `keys`, rows with equal keys in their
/// original order (the order a stable sort gives).
pub open spec fn sorted_order(rows: Seq<Seq<Seq<char>>>, keys: Seq<SortKey>, order: Seq<usize>) -> bool {
    &&& order.len() == rows.len()
    &&& order.no_duplicates()
    &&& forall|i: int| 0 <= i < order.len() ==> order[i] < rows.len()
    &&& forall|m: int| 0 <= m < rows.len() ==> #[trigger] order.contains(m as usize)
    &&& forall|i: int, j: int|
        0 <= i < j < order.len() ==> !row_before(
            #[trigger] rows[order[j] as int],
            #[trigger] rows[order[i] as int],
            keys,
        )
    &&& forall|i: int, j: int|
        0 <= i < j < order.len() && same_keys(rows[order[i] as int], rows[order[j] as int], keys) ==> order[i]
            < order[j]
}

/// The order in which a stable sort by `keys` puts the rows.
fn sort_order(rows: &Vec<Row>, keys: &Vec<SortKey>) -> (r: Vec<usize>)
    ensures
        sorted_order(rows_view(rows@), keys@, r@),
{
    let ghost ks = rows_view(rows@);
    let mut out: Vec<usize> = Vec::new();
    let mut k: usize = 0;
    while k < rows.len()
        invariant
            k <= rows@.len(),
            ks == rows_view(rows@),
            out@.len() == k,
            out@.no_duplicates(),
            forall|i: int| 0 <= i < out@.len() ==> out@[i] < k,
            forall|m: int| 0 <= m < k ==> #[trigger] out@.contains(m as usize),
            forall|i: int, j: int|
                0 <= i < j < out@.len() ==> !row_before(
                    #[trigger] ks[out@[j] as int],
                    #[trigger] ks[out@[i] as int],
                    keys@,
                ),
            forall|i: int, j: int|
                0 <= i < j < out@.len() && same_keys(ks[out@[i] as int], ks[out@[j] as int], keys@) ==> out@[i]
                    < out@[j],
        decreases rows@.len() - k,
    {
        let ghost before = out@;
        let ghost xk = ks[k as int];
        let mut j: usize = 0;
        while j < out.len() && !row_before_exec(&rows[k], &rows[out[j]], keys)
            invariant
                j <= out@.len(),
                out@ == before,
                k < rows@.len(),
                xk == ks[k as int],
                ks == rows_view(rows@),
                forall|i: int| 0 <= i < out@.len() ==> out@[i] < k,
                forall|t: int| 0 <= t < j ==> !row_before(xk, #[trigger] ks[before[t] as int], keys@),
            decreases out@.len() - j,
        {
            j = j + 1;
        }
        proof {
            assert forall|t: int| j <= t < before.len() implies row_before(
                xk,
                #[trigger] ks[before[t] as int],
                keys@,
            ) by {
                let xj = ks[before[j as int] as int];
                let xt = ks[before[t] as int];
                assert(row_before(xk, xj, keys@));
                if t > j {
                    assert(!row_before(xt, xj, keys@));
                    lemma_before_order(xt, xj, keys@);
                    if same_keys(xt, xj, keys@) {
                        lemma_same_keys_before(xk, xj, xt, keys@);
                    } else {
                        lemma_before_transitive(xk, xj, xt, keys@);
                    }
                }
            }
        }
        out.insert(j, k);
        proof {
            let after = out@;
            assert(after =~= before.insert(j as int, k));
            assert forall|a: int, b: int| 0 <= a < b < after.len() implies !row_before(
                #[trigger] ks[after[b] as int],
                #[trigger] ks[after[a] as int],
                keys@,
            ) by {
                if a < j && b == j {
                    assert(after[a] == before[a]);
                } else if a == j && b > j {
                    assert(after[b] == before[b - 1]);
                    lemma_before_order(xk, ks[before[b - 1] as int], keys@);
                } else if a < j && b > j {
                    assert(after[a] == before[a]);
                    assert(after[b] == before[b - 1]);
                } else if b < j {
                    assert(after[a] == before[a]);
                    assert(after[b] == before[b]);
                } else {
                    assert(after[a] == before[a - 1]);
                    assert(after[b] == before[b - 1]);
                }
            }
            assert forall|a: int, b: int|
                0 <= a < b < after.len() && same_keys(ks[after[a] as int], ks[after[b] as int], keys@) implies after[a]
                < after[b] by {
                if a < j && b == j {
                    assert(after[a] == before[a]);
                } else if a == j && b > j {
                    assert(after[b] == before[b - 1]);
                    lemma_before_order(xk, ks[before[b - 1] as int], keys@);
                } else if a < j && b > j {
                    assert(after[a] == before[a]);
                    assert(after[b] == before[b - 1]);
                } else if b < j {
                    assert(after[a] == before[a]);
                    assert(after[b] == before[b]);
                } else {
                    assert(after[a] == before[a - 1]);
                    assert(after[b] == before[b - 1]);
                }
            }
            assert forall|a: int, b: int| 0 <= a < after.len() && 0 <= b < after.len() && a != b implies after[a]
                != after[b] by {
                if a != j && b != j {
                    let a0 = if a < j { a } else { a - 1 };
                    let b0 = if b < j { b } else { b - 1 };
                    assert(after[a] == before[a0]);
                    assert(after[b] == before[b0]);
                } else if a == j {
                    let b0 = if b < j { b } else { b - 1 };
                    assert(after[b] == before[b0]);
                } else {
                    let a0 = if a < j { a } else { a - 1 };
                    assert(after[a] == before[a0]);
                }
            }
            assert forall|i: int| 0 <= i < after.len() implies after[i] < k + 1 by {
                if i < j {
                    assert(after[i] == before[i]);
                } else if i > j {
                    assert(after[i] == before[i - 1]);
                }
            }
            assert forall|m: int| 0 <= m < k + 1 implies #[trigger] after.contains(m as usize) by {
                if m == k {
                    assert(after[j as int] == k);
                } else {
                    assert(before.contains(m as usize));
                    let t = choose|t: int| 0 <= t < before.len() && before[t] == m as usize;
                    if t < j {
                        assert(after[t] == before[t]);
                    } else {
                        assert(after[t + 1] == before[t]);
                    }
                }
            }
        }
        k = k + 1;
    }
    out
}

proof fn lemma_same_keys_before(x: Seq<Seq<char>>, y: Seq<Seq<char>>, z: Seq<Seq<char>>, keys: Seq<SortKey>)
    requires
        row_before(x, y, keys),
        same_keys(z, y, keys),
    ensures
        row_before(x, z, keys),
    decreases keys.len(),
{
    if keys.len() > 0 {
        assert(sort_cell(z, keys[0].col_idx as int) == sort_cell(y, keys[0].col_idx as int));
        let rest = keys.drop_first();
        assert forall|k: int| 0 <= k < rest.len() implies sort_cell(z, #[trigger] rest[k].col_idx as int) == sort_cell(y, rest[k].col_idx as int) by {
            assert(rest[k] == keys[k + 1]);
        }
        if sort_cell(x, keys[0].col_idx as int) == sort_cell(y, keys[0].col_idx as int) {
            lemma_same_keys_before(x, y, z, rest);
        }
    }
}

/// Whether `out` is `rows` in a stable sort order by `keys`.
pub open spec fn sorted_by(rows: Seq<Seq<Seq<char>>>, keys: Seq<SortKey>, out: Seq<Seq<Seq<char>>>) -> bool {
    exists|order: Seq<usize>|
        #![trigger order.len()]
        sorted_order(rows, keys, order) && out == Seq::new(rows.len(), |i: int| rows[order[i] as int])
}

/// `ORDER BY`: the rows stably sorted by the keys (unchanged without keys).
pub fn apply_order_by(rows: Vec<Row>, keys: &Vec<SortKey>) -> (r: Vec<Row>)
    ensures
        keys@.len() == 0 ==> rows_view(r@) == rows_view(rows@),
        sorted_by(rows_view(rows@), keys@, rows_view(r@)),
{
    let order = sort_order(&rows, keys);
    if keys.len() == 0 {
        proof {
            let rv = rows_view(rows@);
            assert forall|i: int| 0 <= i < rv.len() implies order@[i] == i by {
                lemma_identity_order(rv, keys@, order@, i);
            }
            assert(rv =~= Seq::new(rv.len(), |i: int| rv[order@[i] as int]));
            assert(order@.len() == order@.len());
        }
        return rows;
    }
    let out = arrange(&rows, &order);
    proof {
        assert(order@.len() == order@.len());
    }
    out
}

proof fn lemma_identity_order(rows: Seq<Seq<Seq<char>>>, keys: Seq<SortKey>, order: Seq<usize>, i: int)
    requires
        keys.len() == 0,
        sorted_order(rows, keys, order),
        0 <= i < rows.len(),
    ensures
        order[i] == i,
    decreases i,
{
    assert forall|a: int, b: int| 0 <= a < b < order.len() implies order[a] < order[b] by {
        assert(same_keys(rows[order[a] as int], rows[order[b] as int], keys));
    }
    // order is strictly increasing over 0..n and a permutation of 0..n: the identity
    if order[i] < i {
        lemma_increasing_lower(order, i, rows.len() as int);
    } else if order[i] > i {
        lemma_increasing_upper(order, i, rows.len() as int);
    }
}

proof fn lemma_increasing_lower(order: Seq<usize>, i: int, n: int)
    requires
        order.len() == n,
        0 <= i < n,
        forall|a: int, b: int| 0 <= a < b < order.len() ==> order[a] < order[b],
        forall|m: int| 0 <= m < n ==> #[trigger] order.contains(m as usize),
        forall|t: int| 0 <= t < order.len() ==> order[t] < n,
    ensures
        order[i] >= i,
    decreases i,
{
    if i > 0 {
        lemma_increasing_lower(order, i - 1, n);
        assert(order[i - 1] < order[i]);
    }
}

proof fn lemma_increasing_upper(order: Seq<usize>, i: int, n: int)
    requires
        order.len() == n,
        0 <= i < n,
        forall|a: int, b: int| 0 <= a < b < order.len() ==> order[a] < order[b],
        forall|t: int| 0 <= t < order.len() ==> order[t] < n,
    ensures
        order[i] <= i,
    decreases n - i,
{
    if i < n - 1 {
        lemma_increasing_upper(order, i + 1, n);
        assert(order[i] < order[i + 1]);
    }
}


/// The column an output expression names (the last part of a dotted name), or the error.
pub open spec fn select_column_of(e: FilterExpr) -> Result<Seq<char>, Seq<char>> {
    match e.kind {
        ExprKind::Identifier(id) => Ok(id@),
        ExprKind::CompoundIdentifier(parts) => if parts@.len() == 0 {
            Err("empty compound identifier"@)
        } else {
            Ok(parts@.last()@)
        },
        _ => Err("unsupported SELECT expression: "@ + e.text@),
    }
}

/// The column an output expression names.
fn expr_column_name(e: &FilterExpr) -> (r: Result<String, ExecError>)
    ensures
        match select_column_of(*e) {
            Ok(c) => r matches Ok(s) && s@ == c,
            Err(m) => r matches Err(ExecError::Message(x)) && x@ == m,
        },
{
    match &e.kind {
        ExprKind::Identifier(id) => Ok(owned(id.as_str())),
        ExprKind::CompoundIdentifier(parts) => if parts.len() == 0 {
            Err(ExecError::Message(owned("empty compound identifier")))
        } else {
            Ok(owned(parts[parts.len() - 1].as_str()))
        },
        _ => {
            let mut out: Vec<char> = Vec::new();
            push_str(&mut out, "unsupported SELECT expression: ");
            push_str(&mut out, e.text.as_str());
            Err(ExecError::Message(string_from_chars(out.as_slice())))
        },
    }
}

/// The sort keys of `ORDER BY` items over `columns`: each item's column (any ASCII case),
/// ascending unless `DESC`; an error for `NULLS FIRST/LAST`, an unsupported expression or an
/// unknown column, at the first item that has one.
pub open spec fn order_keys(items: Seq<OrderByItem>, columns: Seq<Seq<char>>) -> Result<Seq<SortKey>, Seq<char>>
    decreases items.len(),
{
    if items.len() == 0 {
        Ok(Seq::empty())
    } else {
        match order_keys(items.drop_last(), columns) {
            Err(m) => Err(m),
            Ok(ks) => {
                let it = items.last();
                if it.nulls_first is Some {
                    Err("NULLS FIRST/LAST in ORDER BY not supported"@)
                } else {
                    match select_column_of(it.expr) {
                        Err(m) => Err(m),
                        Ok(c) => match column_position(columns, c) {
                            None => Err("unknown ORDER BY column '"@ + c + "'"@),
                            Some(i) => Ok(
                                ks.push(
                                    SortKey {
                                        col_idx: i as usize,
                                        ascending: match it.asc {
                                            Some(b) => b,
                                            None => true,
                                        },
                                    },
                                ),
                            ),
                        },
                    }
                }
            },
        }
    }
}

proof fn lemma_order_keys_error(items: Seq<OrderByItem>, columns: Seq<Seq<char>>, n: int)
    requires
        0 < n <= items.len(),
        order_keys(items.take(n), columns) is Err,
    ensures
        order_keys(items, columns) == order_keys(items.take(n), columns),
    decreases items.len() - n,
{
    if n < items.len() {
        assert(items.take(n + 1).drop_last() =~= items.take(n));
        lemma_order_keys_error(items, columns, n + 1);
    } else {
        assert(items.take(n) =~= items);
    }
}

/// The sort keys of an `ORDER BY` over the result columns (none without one).
pub fn resolve_order_by(order_by: Option<&Vec<OrderByItem>>, columns: &Vec<String>) -> (r: Result<Vec<SortKey>, ExecError>)
    ensures
        match order_by {
            None => r matches Ok(v) && v@.len() == 0,
            Some(items) => match order_keys(items@, texts(columns@)) {
                Ok(ks) => r matches Ok(v) && v@ == ks,
                Err(m) => r matches Err(ExecError::Message(x)) && x@ == m,
            },
        },
{
    let items = match order_by {
        Some(items) => items,
        None => {
            return Ok(Vec::new());
        },
    };
    let mut keys: Vec<SortKey> = Vec::new();
    let mut i: usize = 0;
    proof {
        assert(items@.take(0) =~= Seq::<OrderByItem>::empty());
    }
    while i < items.len()
        invariant
            i <= items@.len(),
            order_by == Some(items),
            order_keys(items@.take(i as int), texts(columns@)) == Ok::<Seq<SortKey>, Seq<char>>(keys@),
        decreases items@.len() - i,
    {
        proof {
            assert(items@.take(i + 1).drop_last() =~= items@.take(i as int));
            assert(items@.take(i + 1).last() == items@[i as int]);
        }
        let it = &items[i];
        if it.nulls_first.is_some() {
            proof {
                lemma_order_keys_error(items@, texts(columns@), i + 1);
            }
            return Err(ExecError::Message(owned("NULLS FIRST/LAST in ORDER BY not supported")));
        }
        let col = match expr_column_name(&it.expr) {
            Ok(c) => c,
            Err(e) => {
                proof {
                    lemma_order_keys_error(items@, texts(columns@), i + 1);
                }
                return Err(e);
            },
        };
        let idx = match crate::where_filter::column_index(columns.as_slice(), col.as_str()) {
            Some(x) => x,
            None => {
                proof {
                    lemma_order_keys_error(items@, texts(columns@), i + 1);
                }
                let mut out: Vec<char> = Vec::new();
                push_str(&mut out, "unknown ORDER BY column '");
                push_str(&mut out, col.as_str());
                push_str(&mut out, "'");
                return Err(ExecError::Message(string_from_chars(out.as_slice())));
            },
        };
        let ascending = match it.asc {
            Some(b) => b,
            None => true,
        };
        keys.push(SortKey { col_idx: idx, ascending });
        i = i + 1;
    }
    proof {
        assert(items@.take(i as int) =~= items@);
    }
    Ok(keys)
}

/// The rows of a result after `ORDER BY`, `OFFSET` and `LIMIT`.
fn finish_row_set(
    rows: Vec<Row>,
    columns: &Vec<String>,
    order_by: Option<&Vec<OrderByItem>>,
    offset: Option<usize>,
    limit: Option<usize>,
) -> (r: Result<Vec<Row>, ExecError>)
    ensures
        match order_by {
            None => r matches Ok(v) && rows_view(v@) == paginated(rows_view(rows@), offset, limit),
            Some(items) => match order_keys(items@, texts(columns@)) {
                Ok(ks) => r matches Ok(v) && exists|sorted: Seq<Seq<Seq<char>>>|
                    #![trigger sorted.len()]
                    sorted_by(rows_view(rows@), ks, sorted) && rows_view(v@) == paginated(sorted, offset, limit),
                Err(m) => r matches Err(ExecError::Message(x)) && x@ == m,
            },
        },
{
    let keys = match resolve_order_by(order_by, columns) {
        Ok(k) => k,
        Err(e) => {
            return Err(e);
        },
    };
    let sorted = apply_order_by(rows, &keys);
    let ghost sv = rows_view(sorted@);
    let out = apply_pagination(sorted, offset, limit);
    proof {
        assert(sv.len() == sv.len());
    }
    Ok(out)
}

/// A query's result after `ORDER BY`, `OFFSET` and `LIMIT`: rows are finished, a count is
/// passed through.
pub fn finish_rows_query(
    result: QueryResult,
    order_by: Option<&Vec<OrderByItem>>,
    offset: Option<usize>,
    limit: Option<usize>,
) -> (r: Result<QueryResult, ExecError>)
    ensures
        match result {
            QueryResult::Affected { rows_affected } => r == Ok::<QueryResult, ExecError>(
                QueryResult::Affected { rows_affected },
            ),
            QueryResult::Rows { columns, rows } => match order_by {
                None => r matches Ok(QueryResult::Rows { columns: c, rows: v }) && texts(c@) == texts(columns@)
                    && rows_view(v@) == paginated(rows_view(rows@), offset, limit),
                Some(items) => match order_keys(items@, texts(columns@)) {
                    Ok(ks) => r matches Ok(QueryResult::Rows { columns: c, rows: v }) && texts(c@) == texts(columns@)
                        && exists|sorted: Seq<Seq<Seq<char>>>|
                        #![trigger sorted.len()]
                        sorted_by(rows_view(rows@), ks, sorted) && rows_view(v@) == paginated(sorted, offset, limit),
                    Err(m) => r matches Err(ExecError::Message(x)) && x@ == m,
                },
            },
        },
{
    match result {
        QueryResult::Rows { columns, rows } => {
            let out = match finish_row_set(rows, &columns, order_by, offset, limit) {
                Ok(v) => v,
                Err(e) => {
                    return Err(e);
                },
            };
            Ok(QueryResult::Rows { columns, rows: out })
        },
        other => Ok(other),
    }
}

} // verus!

