//! `WHERE` clauses: parsed into a filter of simple predicates over named columns, and rows
//! kept or dropped by it. Numbers compare as `i64` when both sides parse as one, other values
//! by the column's collation.
use vstd::prelude::*;
use core::cmp::Ordering;
use crate::collation::{key_order, sort_key, Collation, DEFAULT_COLLATION};
use crate::results::{rows_view, ExecError, Row};
use crate::catalog::texts;
use crate::text::{
    chars_eq, eq_ignore_ascii_case, eq_ignore_case_seq, owned, parse_in_range,
    parse_int_in_range, starts_with_seq, str_chars, str_eq, sub_chars,
};

verus! {

/// A comparison operator of a column against a literal.
#[derive(Debug, Clone, Copy, PartialEq, Eq, Structural)]
pub enum CompareOp {
    Eq,
    NotEq,
    Lt,
    LtEq,
    Gt,
    GtEq,
}

/// `column op value`.
#[derive(Debug, Clone)]
pub struct LiteralPredicate {
    pub column: String,
    pub op: CompareOp,
    pub value: String,
}

/// One condition on a row.
#[derive(Debug, Clone)]
pub enum Predicate {
    Compare(LiteralPredicate),
    IsNull { column: String },
    IsNotNull { column: String },
    /// `LIKE` with `%` at either end only.
    Like { column: String, pattern: String, negated: bool },
    Between { column: String, low: String, high: String, negated: bool },
    In { column: String, values: Vec<String>, negated: bool },
    /// `IN (subquery)`: decided where subqueries run; never holds here.
    InSubquery { column: String, negated: bool },
    /// `EXISTS (subquery)`: decided where subqueries run; never holds here.
    Exists { negated: bool },
}

/// A tree of predicates.
#[derive(Debug)]
pub enum WhereFilter {
    Pred(Predicate),
    And(Vec<WhereFilter>),
    Or(Vec<WhereFilter>),
    Not(Box<WhereFilter>),
}

/// A predicate with its texts as plain values.
pub enum PredView {
    Compare { column: Seq<char>, op: CompareOp, value: Seq<char> },
    IsNull { column: Seq<char> },
    IsNotNull { column: Seq<char> },
    Like { column: Seq<char>, pattern: Seq<char>, negated: bool },
    Between { column: Seq<char>, low: Seq<char>, high: Seq<char>, negated: bool },
    In { column: Seq<char>, values: Seq<Seq<char>>, negated: bool },
    InSubquery { column: Seq<char>, negated: bool },
    Exists { negated: bool },
}

/// The plain values of a predicate.
pub open spec fn pred_view(p: Predicate) -> PredView {
    match p {
        Predicate::Compare(l) => PredView::Compare { column: l.column@, op: l.op, value: l.value@ },
        Predicate::IsNull { column } => PredView::IsNull { column: column@ },
        Predicate::IsNotNull { column } => PredView::IsNotNull { column: column@ },
        Predicate::Like { column, pattern, negated } => PredView::Like {
            column: column@,
            pattern: pattern@,
            negated,
        },
        Predicate::Between { column, low, high, negated } => PredView::Between {
            column: column@,
            low: low@,
            high: high@,
            negated,
        },
        Predicate::In { column, values, negated } => PredView::In {
            column: column@,
            values: texts(values@),
            negated,
        },
        Predicate::InSubquery { column, negated } => PredView::InSubquery {
            column: column@,
            negated,
        },
        Predicate::Exists { negated } => PredView::Exists { negated },
    }
}

/// The first position of a column named `column` (in any ASCII case).
pub open spec fn column_position(columns: Seq<Seq<char>>, column: Seq<char>) -> Option<int>
    decreases columns.len(),
{
    if columns.len() == 0 {
        None
    } else {
        match column_position(columns.drop_last(), column) {
            Some(i) => Some(i),
            None => if eq_ignore_case_seq(columns.last(), column) {
                Some(columns.len() - 1)
            } else {
                None
            },
        }
    }
}

/// The collation of column `i`: the given one, else the default.
pub open spec fn collation_of(collations: Seq<Collation>, i: int) -> Collation {
    if 0 <= i < collations.len() {
        collations[i]
    } else {
        DEFAULT_COLLATION
    }
}

/// The value `s` reads as an `i64`, when it does.
pub open spec fn int_value(s: Seq<char>) -> Option<int> {
    parse_in_range(s, i64::MIN as int, i64::MAX as int)
}

/// Whether `a op b` holds of two integers.
pub open spec fn int_op_holds(op: CompareOp, a: int, b: int) -> bool {
    match op {
        CompareOp::Eq => a == b,
        CompareOp::NotEq => a != b,
        CompareOp::Lt => a < b,
        CompareOp::LtEq => a <= b,
        CompareOp::Gt => a > b,
        CompareOp::GtEq => a >= b,
    }
}

/// Whether `cell op literal` holds: as integers when both read as `i64`, else by `collation`.
pub open spec fn compare_holds(cell: Seq<char>, op: CompareOp, literal: Seq<char>, collation: Collation) -> bool {
    match (int_value(cell), int_value(literal)) {
        (Some(a), Some(b)) => int_op_holds(op, a, b),
        _ => {
            let o = key_order(sort_key(collation, cell), sort_key(collation, literal));
            match op {
                CompareOp::Eq => sort_key(collation, cell) == sort_key(collation, literal),
                CompareOp::NotEq => sort_key(collation, cell) != sort_key(collation, literal),
                CompareOp::Lt => o == Ordering::Less,
                CompareOp::LtEq => o == Ordering::Less || o == Ordering::Equal,
                CompareOp::Gt => o == Ordering::Greater,
                CompareOp::GtEq => o == Ordering::Greater || o == Ordering::Equal,
            }
        },
    }
}

/// Whether `p` occurs in `s` at `i`.
pub open spec fn occurs_at(s: Seq<char>, p: Seq<char>, i: int) -> bool {
    0 <= i && i + p.len() <= s.len() && s.subrange(i, i + p.len()) == p
}

/// Whether `s` ends with `p`.
pub open spec fn ends_with_seq(s: Seq<char>, p: Seq<char>) -> bool {
    p.len() <= s.len() && s.subrange(s.len() - p.len(), s.len() as int) == p
}

/// `cell LIKE pattern`, where only a `%` at either end is a wildcard: `%` matches anything,
/// `%m%` a cell containing a non-empty `m`, `p%` a prefix, `%s` a suffix; otherwise the cell
/// equals the pattern, exactly or by `collation`.
pub open spec fn like_holds(cell: Seq<char>, pattern: Seq<char>, collation: Collation) -> bool {
    if pattern == seq!['%'] {
        true
    } else if pattern.len() >= 2 && pattern[0] == '%' && pattern.last() == '%' {
        let m = pattern.subrange(1, pattern.len() - 1);
        m.len() > 0 && exists|i: int| occurs_at(cell, m, i)
    } else if pattern.len() >= 1 && pattern.last() == '%' {
        starts_with_seq(cell, pattern.drop_last())
    } else if pattern.len() >= 1 && pattern[0] == '%' {
        ends_with_seq(cell, pattern.drop_first())
    } else {
        cell == pattern || sort_key(collation, cell) == sort_key(collation, pattern)
    }
}

/// `cell BETWEEN low AND high`, both ends included: as integers when all three read as `i64`;
/// else by `collation`, and never when `low` sorts after `high`.
pub open spec fn between_holds(cell: Seq<char>, low: Seq<char>, high: Seq<char>, collation: Collation) -> bool {
    match (int_value(cell), int_value(low), int_value(high)) {
        (Some(c), Some(lo), Some(hi)) => lo <= c && c <= hi,
        _ => {
            let kc = sort_key(collation, cell);
            let kl = sort_key(collation, low);
            let kh = sort_key(collation, high);
            key_order(kl, kh) != Ordering::Greater && key_order(kc, kl) != Ordering::Less
                && key_order(kc, kh) != Ordering::Greater
        },
    }
}

/// Whether some value equals `cell` under `collation`.
pub open spec fn in_holds(cell: Seq<char>, values: Seq<Seq<char>>, collation: Collation) -> bool {
    exists|k: int| 0 <= k < values.len() && sort_key(collation, cell) == sort_key(collation, #[trigger] values[k])
}

/// The cell of `column` in `row` and its position, when the column is known and the row has it.
pub open spec fn cell_of(row: Seq<Seq<char>>, columns: Seq<Seq<char>>, column: Seq<char>) -> Option<(int, Seq<char>)> {
    match column_position(columns, column) {
        Some(i) => if i < row.len() {
            Some((i, row[i]))
        } else {
            None
        },
        None => None,
    }
}

/// Whether `p` holds of `row`. A missing column or cell fails every test but `IS NULL`, which
/// it passes; an empty cell is NULL.
pub open spec fn pred_holds(row: Seq<Seq<char>>, columns: Seq<Seq<char>>, p: PredView, collations: Seq<Collation>) -> bool {
    match p {
        PredView::Compare { column, op, value } => match cell_of(row, columns, column) {
            Some((i, c)) => compare_holds(c, op, value, collation_of(collations, i)),
            None => false,
        },
        PredView::IsNull { column } => match cell_of(row, columns, column) {
            Some((_, c)) => c.len() == 0,
            None => true,
        },
        PredView::IsNotNull { column } => match cell_of(row, columns, column) {
            Some((_, c)) => c.len() != 0,
            None => false,
        },
        PredView::Like { column, pattern, negated } => (match cell_of(row, columns, column) {
            Some((i, c)) => like_holds(c, pattern, collation_of(collations, i)),
            None => false,
        }) != negated,
        PredView::Between { column, low, high, negated } => (match cell_of(row, columns, column) {
            Some((i, c)) => between_holds(c, low, high, collation_of(collations, i)),
            None => false,
        }) != negated,
        PredView::In { column, values, negated } => (match cell_of(row, columns, column) {
            Some((i, c)) => in_holds(c, values, collation_of(collations, i)),
            None => false,
        }) != negated,
        PredView::InSubquery { .. } => false,
        PredView::Exists { .. } => false,
    }
}

/// Whether `f` holds of `row`.
pub open spec fn filter_holds(row: Seq<Seq<char>>, columns: Seq<Seq<char>>, f: WhereFilter, collations: Seq<Collation>) -> bool
    decreases f, 0nat,
{
    match f {
        WhereFilter::Pred(p) => pred_holds(row, columns, pred_view(p), collations),
        WhereFilter::And(parts) => all_hold(row, columns, parts@, collations, parts@.len()),
        WhereFilter::Or(parts) => any_holds(row, columns, parts@, collations, parts@.len()),
        WhereFilter::Not(inner) => !filter_holds(row, columns, *inner, collations),
    }
}

/// Whether each of the first `n` filters holds.
pub open spec fn all_hold(row: Seq<Seq<char>>, columns: Seq<Seq<char>>, parts: Seq<WhereFilter>, collations: Seq<Collation>, n: nat) -> bool
    decreases parts, n,
{
    if n == 0 || n > parts.len() {
        n == 0
    } else {
        all_hold(row, columns, parts, collations, (n - 1) as nat) && filter_holds(
            row,
            columns,
            parts[n - 1],
            collations,
        )
    }
}

/// Whether one of the first `n` filters holds.
pub open spec fn any_holds(row: Seq<Seq<char>>, columns: Seq<Seq<char>>, parts: Seq<WhereFilter>, collations: Seq<Collation>, n: nat) -> bool
    decreases parts, n,
{
    if n == 0 || n > parts.len() {
        false
    } else {
        any_holds(row, columns, parts, collations, (n - 1) as nat) || filter_holds(
            row,
            columns,
            parts[n - 1],
            collations,
        )
    }
}


/// The rows of `rows` that `f` keeps, in order.
pub open spec fn kept_rows(rows: Seq<Seq<Seq<char>>>, columns: Seq<Seq<char>>, f: WhereFilter, collations: Seq<Collation>) -> Seq<Seq<Seq<char>>>
    decreases rows.len(),
{
    if rows.len() == 0 {
        Seq::empty()
    } else {
        let before = kept_rows(rows.drop_last(), columns, f, collations);
        if filter_holds(rows.last(), columns, f, collations) {
            before.push(rows.last())
        } else {
            before
        }
    }
}

/// The collation of column `idx`: the given one, else the default.
fn collation_at(collations: &[Collation], idx: usize) -> (r: Collation)
    ensures
        r == collation_of(collations@, idx as int),
{
    if idx < collations.len() {
        collations[idx]
    } else {
        DEFAULT_COLLATION
    }
}

/// Whether `cell op literal` holds.
fn compare_values(cell: &str, op: CompareOp, literal: &str, collation: Collation) -> (r: bool)
    ensures
        r == compare_holds(cell@, op, literal@, collation),
{
    match (parse_int_in_range(cell, i64::MIN, i64::MAX), parse_int_in_range(literal, i64::MIN, i64::MAX)) {
        (Some(a), Some(b)) => {
            return match op {
                CompareOp::Eq => a == b,
                CompareOp::NotEq => a != b,
                CompareOp::Lt => a < b,
                CompareOp::LtEq => a <= b,
                CompareOp::Gt => a > b,
                CompareOp::GtEq => a >= b,
            };
        },
        _ => {},
    }
    match op {
        CompareOp::Eq => collation.eq(cell, literal),
        CompareOp::NotEq => !collation.eq(cell, literal),
        CompareOp::Lt => match collation.compare(cell, literal) {
            Ordering::Less => true,
            _ => false,
        },
        CompareOp::LtEq => match collation.compare(cell, literal) {
            Ordering::Greater => false,
            _ => true,
        },
        CompareOp::Gt => match collation.compare(cell, literal) {
            Ordering::Greater => true,
            _ => false,
        },
        CompareOp::GtEq => match collation.compare(cell, literal) {
            Ordering::Less => false,
            _ => true,
        },
    }
}

/// Whether `p` occurs in `s`.
fn contains_chars(s: &Vec<char>, p: &Vec<char>) -> (r: bool)
    ensures
        r == exists|i: int| occurs_at(s@, p@, i),
{
    if p.len() > s.len() {
        proof {
            assert forall|i: int| !occurs_at(s@, p@, i) by {}
        }
        return false;
    }
    let last = s.len() - p.len();
    let mut i: usize = 0;
    while i < last
        invariant
            i <= last,
            last + p@.len() == s@.len(),
            s@.len() <= usize::MAX,
            forall|j: int| 0 <= j < i ==> !occurs_at(s@, p@, j),
        decreases last - i,
    {
        let w = sub_chars(s, i, i + p.len());
        if chars_eq(&w, p) {
            proof {
                assert(occurs_at(s@, p@, i as int));
            }
            return true;
        }
        i = i + 1;
    }
    let w = sub_chars(s, last, s.len());
    if chars_eq(&w, p) {
        proof {
            assert(occurs_at(s@, p@, last as int));
        }
        return true;
    }
    proof {
        assert forall|j: int| !occurs_at(s@, p@, j) by {
            if 0 <= j && j < last {
            }
        }
    }
    false
}

/// Whether `s` ends with `p`.
fn ends_with_chars(s: &Vec<char>, p: &Vec<char>) -> (r: bool)
    ensures
        r == ends_with_seq(s@, p@),
{
    if p.len() > s.len() {
        return false;
    }
    let w = sub_chars(s, s.len() - p.len(), s.len());
    chars_eq(&w, p)
}

/// `cell LIKE pattern` with `%` at either end only.
fn like_match(cell: &str, pattern: &str, collation: Collation) -> (r: bool)
    ensures
        r == like_holds(cell@, pattern@, collation),
{
    proof {
        reveal_strlit("%");
    }
    if str_eq(pattern, "%") {
        proof {
            assert("%"@ =~= seq!['%']);
        }
        return true;
    }
    proof {
        assert(pattern@ != seq!['%']) by {
            assert("%"@ =~= seq!['%']);
        }
    }
    let pv = str_chars(pattern);
    let cv = str_chars(cell);
    let n = pv.len();
    if n >= 2 && pv[0] == '%' && pv[n - 1] == '%' {
        let m = sub_chars(&pv, 1, n - 1);
        return m.len() > 0 && contains_chars(&cv, &m);
    }
    if n >= 1 && pv[n - 1] == '%' {
        let pre = sub_chars(&pv, 0, n - 1);
        proof {
            assert(pre@ =~= pattern@.drop_last());
        }
        let w = if pre.len() <= cv.len() {
            let head = sub_chars(&cv, 0, pre.len());
            chars_eq(&head, &pre)
        } else {
            false
        };
        return w;
    }
    if n >= 1 && pv[0] == '%' {
        let suf = sub_chars(&pv, 1, n);
        proof {
            assert(suf@ =~= pattern@.drop_first());
        }
        return ends_with_chars(&cv, &suf);
    }
    str_eq(cell, pattern) || collation.eq(cell, pattern)
}

/// `cell BETWEEN low AND high`, both ends included.
fn between_inclusive(cell: &str, low: &str, high: &str, collation: Collation) -> (r: bool)
    ensures
        r == between_holds(cell@, low@, high@, collation),
{
    let c = parse_int_in_range(cell, i64::MIN, i64::MAX);
    let lo = parse_int_in_range(low, i64::MIN, i64::MAX);
    let hi = parse_int_in_range(high, i64::MIN, i64::MAX);
    match (c, lo, hi) {
        (Some(c), Some(lo), Some(hi)) => {
            return lo <= c && c <= hi;
        },
        _ => {},
    }
    match collation.compare(low, high) {
        Ordering::Greater => false,
        _ => {
            let below = match collation.compare(cell, low) {
                Ordering::Less => true,
                _ => false,
            };
            let above = match collation.compare(cell, high) {
                Ordering::Greater => true,
                _ => false,
            };
            !below && !above
        },
    }
}

/// Whether a cell is NULL (stored empty).
fn is_null_cell(cell: &str) -> (r: bool)
    ensures
        r == (cell@.len() == 0),
{
    cell.unicode_len() == 0
}

/// The first position of a column named `column` (any ASCII case).
pub(crate) fn column_index(columns: &[String], column: &str) -> (r: Option<usize>)
    ensures
        match column_position(texts(columns@), column@) {
            Some(i) => r matches Some(x) && x == i,
            None => r is None,
        },
{
    let ghost cols = texts(columns@);
    let mut i: usize = 0;
    while i < columns.len()
        invariant
            i <= columns@.len(),
            cols == texts(columns@),
            column_position(cols.take(i as int), column@) is None,
        decreases columns@.len() - i,
    {
        proof {
            assert(cols.take(i + 1).drop_last() =~= cols.take(i as int));
        }
        if eq_ignore_ascii_case(columns[i].as_str(), column) {
            proof {
                lemma_position_prefix(cols, column@, i + 1, i as int);
            }
            return Some(i);
        }
        i = i + 1;
    }
    proof {
        assert(cols.take(i as int) =~= cols);
    }
    None
}

proof fn lemma_position_prefix(cols: Seq<Seq<char>>, column: Seq<char>, n: int, k: int)
    requires
        0 < n <= cols.len(),
        column_position(cols.take(n), column) == Some(k),
    ensures
        column_position(cols, column) == Some(k),
    decreases cols.len() - n,
{
    if n < cols.len() {
        assert(cols.take(n + 1).drop_last() =~= cols.take(n));
        assert(column_position(cols.take(n + 1), column) == Some(k));
        lemma_position_prefix(cols, column, n + 1, k);
    } else {
        assert(cols.take(n) =~= cols);
    }
}

/// The position of the cell of `column` in `row`, when the column is known and the row has it.
fn cell_index(row: &Row, columns: &[String], column: &str) -> (r: Option<usize>)
    ensures
        match cell_of(texts(row@), texts(columns@), column@) {
            Some((i, c)) => r matches Some(x) && x == i && i < row@.len() && row@[i]@ == c,
            None => r is None,
        },
{
    proof {
        assert(texts(row@).len() == row@.len());
    }
    match column_index(columns, column) {
        Some(i) => if i < row.len() {
            Some(i)
        } else {
            None
        },
        None => None,
    }
}

/// Whether `pred` holds of `row`.
fn row_matches_predicate_impl(row: &Row, columns: &[String], pred: &Predicate, collations: &[Collation]) -> (r: bool)
    ensures
        r == pred_holds(texts(row@), texts(columns@), pred_view(*pred), collations@),
{
    match pred {
        Predicate::Compare(p) => match cell_index(row, columns, p.column.as_str()) {
            Some(i) => compare_values(
                row[i].as_str(),
                p.op,
                p.value.as_str(),
                collation_at(collations, i),
            ),
            None => false,
        },
        Predicate::IsNull { column } => match cell_index(row, columns, column.as_str()) {
            Some(i) => is_null_cell(row[i].as_str()),
            None => true,
        },
        Predicate::IsNotNull { column } => match cell_index(row, columns, column.as_str()) {
            Some(i) => !is_null_cell(row[i].as_str()),
            None => false,
        },
        Predicate::Like { column, pattern, negated } => {
            let matched = match cell_index(row, columns, column.as_str()) {
                Some(i) => like_match(row[i].as_str(), pattern.as_str(), collation_at(collations, i)),
                None => false,
            };
            matched != *negated
        },
        Predicate::Between { column, low, high, negated } => {
            let matched = match cell_index(row, columns, column.as_str()) {
                Some(i) => between_inclusive(
                    row[i].as_str(),
                    low.as_str(),
                    high.as_str(),
                    collation_at(collations, i),
                ),
                None => false,
            };
            matched != *negated
        },
        Predicate::In { column, values, negated } => {
            let matched = match cell_index(row, columns, column.as_str()) {
                Some(i) => {
                    let collation = collation_at(collations, i);
                    let cell = row[i].as_str();
                    let ghost vs = texts(values@);
                    let mut found = false;
                    let mut k: usize = 0;
                    while k < values.len()
                        invariant
                            k <= values@.len(),
                            vs == texts(values@),
                            found == exists|j: int| 0 <= j < k && sort_key(collation, cell@) == sort_key(collation, #[trigger] vs[j]),
                        decreases values@.len() - k,
                    {
                        let e = collation.eq(cell, values[k].as_str());
                        proof {
                            assert(vs[k as int] == values@[k as int]@);
                        }
                        found = found || e;
                        k = k + 1;
                    }
                    found
                },
                None => false,
            };
            matched != *negated
        },
        Predicate::InSubquery { .. } => false,
        Predicate::Exists { .. } => false,
    }
}

/// Whether `pred` holds of `row`, every column in the default collation.
pub fn row_matches_predicate(row: &Row, columns: &[String], pred: &Predicate) -> (r: bool)
    ensures
        r == pred_holds(texts(row@), texts(columns@), pred_view(*pred), Seq::empty()),
{
    let none: Vec<Collation> = Vec::new();
    row_matches_predicate_impl(row, columns, pred, none.as_slice())
}

/// Whether `filter` holds of `row`.
fn row_matches_filter(row: &Row, columns: &[String], filter: &WhereFilter, collations: &[Collation]) -> (r: bool)
    ensures
        r == filter_holds(texts(row@), texts(columns@), *filter, collations@),
    decreases filter,
{
    match filter {
        WhereFilter::Pred(p) => row_matches_predicate_impl(row, columns, p, collations),
        WhereFilter::And(parts) => {
            let mut ok = true;
            let mut i: usize = 0;
            while i < parts.len()
                invariant
                    i <= parts@.len(),
                    *filter == WhereFilter::And(*parts),
                    ok == all_hold(texts(row@), texts(columns@), parts@, collations@, i as nat),
                decreases parts@.len() - i,
            {
                proof {
                    assert(decreases_to!(*filter => (*filter)->And_0));
                    assert(decreases_to!(*parts => parts@));
                    assert(decreases_to!(parts@ => parts@[i as int]));
                }
                let b = row_matches_filter(row, columns, &parts[i], collations);
                ok = ok && b;
                i = i + 1;
            }
            ok
        },
        WhereFilter::Or(parts) => {
            let mut any = false;
            let mut i: usize = 0;
            while i < parts.len()
                invariant
                    i <= parts@.len(),
                    *filter == WhereFilter::Or(*parts),
                    any == any_holds(texts(row@), texts(columns@), parts@, collations@, i as nat),
                decreases parts@.len() - i,
            {
                proof {
                    assert(decreases_to!(*filter => (*filter)->Or_0));
                    assert(decreases_to!(*parts => parts@));
                    assert(decreases_to!(parts@ => parts@[i as int]));
                }
                let b = row_matches_filter(row, columns, &parts[i], collations);
                any = any || b;
                i = i + 1;
            }
            any
        },
        WhereFilter::Not(inner) => !row_matches_filter(row, columns, inner, collations),
    }
}

/// The rows that `filter` keeps, in order.
pub fn filter_rows(rows: Vec<Row>, columns: &[String], filter: &WhereFilter, collations: &[Collation]) -> (r: Result<Vec<Row>, ExecError>)
    ensures
        r matches Ok(out) && rows_view(out@) == kept_rows(
            rows_view(rows@),
            texts(columns@),
            *filter,
            collations@,
        ),
{
    let ghost all = rows_view(rows@);
    let mut out: Vec<Row> = Vec::new();
    let mut i: usize = 0;
    while i < rows.len()
        invariant
            i <= rows@.len(),
            all == rows_view(rows@),
            rows_view(out@) == kept_rows(all.take(i as int), texts(columns@), *filter, collations@),
        decreases rows@.len() - i,
    {
        let keep = row_matches_filter(&rows[i], columns, filter, collations);
        proof {
            assert(all.take(i + 1).drop_last() =~= all.take(i as int));
            assert(all.take(i + 1).last() == texts(rows@[i as int]@));
        }
        if keep {
            let c = crate::info_schema::copy_row(&rows[i]);
            proof {
                crate::results::lemma_rows_view_push(out@, c);
            }
            out.push(c);
        }
        i = i + 1;
    }
    proof {
        assert(all.take(i as int) =~= all);
    }
    Ok(out)
}


/// A binary operator of a `WHERE` expression.
#[derive(Debug)]
pub enum BinaryOp {
    Or,
    And,
    Eq,
    NotEq,
    Lt,
    LtEq,
    Gt,
    GtEq,
    /// Any other operator, by its name.
    Other(String),
}

/// A `WHERE` expression, as far as the filter reads it: its form, and how it is shown in an
/// error.
#[derive(Debug)]
pub struct FilterExpr {
    pub kind: ExprKind,
    pub text: String,
}

/// The form of a `WHERE` expression.
#[derive(Debug)]
pub enum ExprKind {
    Identifier(String),
    /// `a.b.c`, by its parts.
    CompoundIdentifier(Vec<String>),
    Null,
    /// A number, as written.
    Number(String),
    /// A single-quoted string.
    SingleQuoted(String),
    IsNull(Box<FilterExpr>),
    IsNotNull(Box<FilterExpr>),
    Like { negated: bool, expr: Box<FilterExpr>, pattern: Box<FilterExpr> },
    Between { expr: Box<FilterExpr>, negated: bool, low: Box<FilterExpr>, high: Box<FilterExpr> },
    InList { expr: Box<FilterExpr>, list: Vec<FilterExpr>, negated: bool },
    BinaryOp { left: Box<FilterExpr>, op: BinaryOp, right: Box<FilterExpr> },
    Not(Box<FilterExpr>),
    /// Any other expression.
    Other,
}

/// The column an expression names (the last part of a dotted name), or the error text.
pub open spec fn column_of(e: FilterExpr) -> Result<Seq<char>, Seq<char>> {
    match e.kind {
        ExprKind::Identifier(id) => Ok(id@),
        ExprKind::CompoundIdentifier(parts) => if parts@.len() == 0 {
            Err("empty compound identifier"@)
        } else {
            Ok(parts@.last()@)
        },
        _ => Err("unsupported WHERE column: "@ + e.text@),
    }
}

/// The literal an expression is (NULL as empty text), or the error text.
pub open spec fn literal_of(e: FilterExpr) -> Result<Seq<char>, Seq<char>> {
    match e.kind {
        ExprKind::Null => Ok(Seq::empty()),
        ExprKind::Number(n) => Ok(n@),
        ExprKind::SingleQuoted(t) => Ok(t@),
        _ => Err("unsupported expr: "@ + e.text@),
    }
}

/// The literals of a list, or the error text of the first that is none.
pub open spec fn literals_of(list: Seq<FilterExpr>) -> Result<Seq<Seq<char>>, Seq<char>>
    decreases list.len(),
{
    if list.len() == 0 {
        Ok(Seq::empty())
    } else {
        match literals_of(list.drop_last()) {
            Err(m) => Err(m),
            Ok(vs) => match literal_of(list.last()) {
                Err(m) => Err(m),
                Ok(v) => Ok(vs.push(v)),
            },
        }
    }
}

/// The comparison an operator is, or the error text.
pub open spec fn compare_op_of(op: BinaryOp) -> Result<CompareOp, Seq<char>> {
    match op {
        BinaryOp::Eq => Ok(CompareOp::Eq),
        BinaryOp::NotEq => Ok(CompareOp::NotEq),
        BinaryOp::Lt => Ok(CompareOp::Lt),
        BinaryOp::LtEq => Ok(CompareOp::LtEq),
        BinaryOp::Gt => Ok(CompareOp::Gt),
        BinaryOp::GtEq => Ok(CompareOp::GtEq),
        BinaryOp::Or => Err("unsupported WHERE operator: Or"@),
        BinaryOp::And => Err("unsupported WHERE operator: And"@),
        BinaryOp::Other(name) => Err("unsupported WHERE operator: "@ + name@),
    }
}

/// `column op literal`, or the error text (column first, then operator, then literal).
pub open spec fn literal_pred_of(e: FilterExpr) -> Result<PredView, Seq<char>> {
    match e.kind {
        ExprKind::BinaryOp { left, op, right } => match column_of(*left) {
            Err(m) => Err(m),
            Ok(c) => match compare_op_of(op) {
                Err(m) => Err(m),
                Ok(o) => match literal_of(*right) {
                    Err(m) => Err(m),
                    Ok(v) => Ok(PredView::Compare { column: c, op: o, value: v }),
                },
            },
        },
        _ => Err("unsupported WHERE expression: "@ + e.text@),
    }
}

/// The predicate an expression is, or the error text.
pub open spec fn pred_of(e: FilterExpr) -> Result<PredView, Seq<char>> {
    match e.kind {
        ExprKind::IsNull(inner) => match column_of(*inner) {
            Err(m) => Err(m),
            Ok(c) => Ok(PredView::IsNull { column: c }),
        },
        ExprKind::IsNotNull(inner) => match column_of(*inner) {
            Err(m) => Err(m),
            Ok(c) => Ok(PredView::IsNotNull { column: c }),
        },
        ExprKind::Like { negated, expr, pattern } => match column_of(*expr) {
            Err(m) => Err(m),
            Ok(c) => match literal_of(*pattern) {
                Err(m) => Err(m),
                Ok(p) => Ok(PredView::Like { column: c, pattern: p, negated }),
            },
        },
        ExprKind::Between { expr, negated, low, high } => match column_of(*expr) {
            Err(m) => Err(m),
            Ok(c) => match literal_of(*low) {
                Err(m) => Err(m),
                Ok(lo) => match literal_of(*high) {
                    Err(m) => Err(m),
                    Ok(hi) => Ok(PredView::Between { column: c, low: lo, high: hi, negated }),
                },
            },
        },
        ExprKind::InList { expr, list, negated } => match literals_of(list@) {
            Err(m) => Err(m),
            Ok(vs) => match column_of(*expr) {
                Err(m) => Err(m),
                Ok(c) => Ok(PredView::In { column: c, values: vs, negated }),
            },
        },
        _ => literal_pred_of(e),
    }
}

/// The error text of parsing `e` at the `OR` level, if it fails.
pub open spec fn or_error(e: FilterExpr) -> Option<Seq<char>>
    decreases e, 2nat,
{
    match e.kind {
        ExprKind::BinaryOp { left, op: BinaryOp::Or, right } => match or_error(*left) {
            Some(m) => Some(m),
            None => or_error(*right),
        },
        _ => and_error(e),
    }
}

/// The error text of parsing `e` at the `AND` level, if it fails.
pub open spec fn and_error(e: FilterExpr) -> Option<Seq<char>>
    decreases e, 1nat,
{
    match e.kind {
        ExprKind::BinaryOp { left, op: BinaryOp::And, right } => match and_error(*left) {
            Some(m) => Some(m),
            None => and_error(*right),
        },
        _ => not_error(e),
    }
}

/// The error text of parsing `e` at the `NOT` level, if it fails.
pub open spec fn not_error(e: FilterExpr) -> Option<Seq<char>>
    decreases e, 0nat,
{
    match e.kind {
        ExprKind::Not(inner) => not_error(*inner),
        _ => match pred_of(e) {
            Err(m) => Some(m),
            Ok(_) => None,
        },
    }
}

/// Whether `f` is the filter `e` parses to at the `OR` level: `a OR b` is `Or[a, b]`.
pub open spec fn or_form(e: FilterExpr, f: WhereFilter) -> bool
    decreases e, 2nat,
{
    match e.kind {
        ExprKind::BinaryOp { left, op: BinaryOp::Or, right } => match f {
            WhereFilter::Or(parts) => parts@.len() == 2 && or_form(*left, parts@[0]) && or_form(
                *right,
                parts@[1],
            ),
            _ => false,
        },
        _ => and_form(e, f),
    }
}

/// Whether `f` is the filter `e` parses to at the `AND` level: `a AND b` is `And[a, b]`.
pub open spec fn and_form(e: FilterExpr, f: WhereFilter) -> bool
    decreases e, 1nat,
{
    match e.kind {
        ExprKind::BinaryOp { left, op: BinaryOp::And, right } => match f {
            WhereFilter::And(parts) => parts@.len() == 2 && and_form(*left, parts@[0])
                && and_form(*right, parts@[1]),
            _ => false,
        },
        _ => not_form(e, f),
    }
}

/// Whether `f` is the filter `e` parses to at the `NOT` level: `NOT a` is `Not(a)`, anything
/// else a single predicate.
pub open spec fn not_form(e: FilterExpr, f: WhereFilter) -> bool
    decreases e, 0nat,
{
    match e.kind {
        ExprKind::Not(inner) => match f {
            WhereFilter::Not(g) => not_form(*inner, *g),
            _ => false,
        },
        _ => match f {
            WhereFilter::Pred(p) => pred_of(e) == Ok::<PredView, Seq<char>>(pred_view(p)),
            _ => false,
        },
    }
}

/// `"prefix" + text` as a string.
fn prefixed(prefix: &str, text: &str) -> (r: String)
    ensures
        r@ == prefix@ + text@,
{
    let mut out: Vec<char> = Vec::new();
    crate::executor::push_str(&mut out, prefix);
    crate::executor::push_str(&mut out, text);
    crate::text::string_from_chars(out.as_slice())
}

/// The column an expression names.
fn expr_column_name(e: &FilterExpr) -> (r: Result<String, ExecError>)
    ensures
        match column_of(*e) {
            Ok(c) => r matches Ok(s) && s@ == c,
            Err(m) => r matches Err(ExecError::Message(x)) && x@ == m,
        },
{
    match &e.kind {
        ExprKind::Identifier(id) => Ok(owned(id.as_str())),
        ExprKind::CompoundIdentifier(parts) => if parts.len() == 0 {
            Err(ExecError::Message(owned("empty compound identifier")))
        } else {
            Ok(owned(parts[parts.len() - 1].as_str()))
        },
        _ => Err(ExecError::Message(prefixed("unsupported WHERE column: ", e.text.as_str()))),
    }
}

/// The literal an expression is.
fn expr_to_string(e: &FilterExpr) -> (r: Result<String, ExecError>)
    ensures
        match literal_of(*e) {
            Ok(v) => r matches Ok(s) && s@ == v,
            Err(m) => r matches Err(ExecError::Message(x)) && x@ == m,
        },
{
    match &e.kind {
        ExprKind::Null => Ok(String::new()),
        ExprKind::Number(n) => Ok(owned(n.as_str())),
        ExprKind::SingleQuoted(t) => Ok(owned(t.as_str())),
        _ => Err(ExecError::Message(prefixed("unsupported expr: ", e.text.as_str()))),
    }
}

/// `column op literal`.
fn parse_literal_predicate(e: &FilterExpr) -> (r: Result<LiteralPredicate, ExecError>)
    ensures
        match literal_pred_of(*e) {
            Ok(v) => r matches Ok(l) && pred_view(Predicate::Compare(l)) == v,
            Err(m) => r matches Err(ExecError::Message(x)) && x@ == m,
        },
{
    match &e.kind {
        ExprKind::BinaryOp { left, op, right } => {
            let column = match expr_column_name(left) {
                Ok(c) => c,
                Err(err) => {
                    return Err(err);
                },
            };
            let cop = match op {
                BinaryOp::Eq => CompareOp::Eq,
                BinaryOp::NotEq => CompareOp::NotEq,
                BinaryOp::Lt => CompareOp::Lt,
                BinaryOp::LtEq => CompareOp::LtEq,
                BinaryOp::Gt => CompareOp::Gt,
                BinaryOp::GtEq => CompareOp::GtEq,
                BinaryOp::Or => {
                    return Err(ExecError::Message(owned("unsupported WHERE operator: Or")));
                },
                BinaryOp::And => {
                    return Err(ExecError::Message(owned("unsupported WHERE operator: And")));
                },
                BinaryOp::Other(name) => {
                    return Err(
                        ExecError::Message(prefixed("unsupported WHERE operator: ", name.as_str())),
                    );
                },
            };
            let value = match expr_to_string(right) {
                Ok(v) => v,
                Err(err) => {
                    return Err(err);
                },
            };
            Ok(LiteralPredicate { column, op: cop, value })
        },
        _ => Err(ExecError::Message(prefixed("unsupported WHERE expression: ", e.text.as_str()))),
    }
}

/// The predicate an expression is.
fn parse_predicate(e: &FilterExpr) -> (r: Result<Predicate, ExecError>)
    ensures
        match pred_of(*e) {
            Ok(v) => r matches Ok(p) && pred_view(p) == v,
            Err(m) => r matches Err(ExecError::Message(x)) && x@ == m,
        },
{
    match &e.kind {
        ExprKind::IsNull(inner) => match expr_column_name(inner) {
            Ok(column) => Ok(Predicate::IsNull { column }),
            Err(err) => Err(err),
        },
        ExprKind::IsNotNull(inner) => match expr_column_name(inner) {
            Ok(column) => Ok(Predicate::IsNotNull { column }),
            Err(err) => Err(err),
        },
        ExprKind::Like { negated, expr, pattern } => {
            let column = match expr_column_name(expr) {
                Ok(c) => c,
                Err(err) => {
                    return Err(err);
                },
            };
            let pattern = match expr_to_string(pattern) {
                Ok(p) => p,
                Err(err) => {
                    return Err(err);
                },
            };
            Ok(Predicate::Like { column, pattern, negated: *negated })
        },
        ExprKind::Between { expr, negated, low, high } => {
            let column = match expr_column_name(expr) {
                Ok(c) => c,
                Err(err) => {
                    return Err(err);
                },
            };
            let low = match expr_to_string(low) {
                Ok(v) => v,
                Err(err) => {
                    return Err(err);
                },
            };
            let high = match expr_to_string(high) {
                Ok(v) => v,
                Err(err) => {
                    return Err(err);
                },
            };
            Ok(Predicate::Between { column, low, high, negated: *negated })
        },
        ExprKind::InList { expr, list, negated } => {
            let mut values: Vec<String> = Vec::new();
            let mut i: usize = 0;
            proof {
                assert(list@.take(0) =~= Seq::<FilterExpr>::empty());
                assert(texts(values@) =~= Seq::<Seq<char>>::empty());
            }
            while i < list.len()
                invariant
                    i <= list@.len(),
                    e.kind matches ExprKind::InList { list: l, .. } && l == *list,
                    literals_of(list@.take(i as int)) == Ok::<Seq<Seq<char>>, Seq<char>>(
                        texts(values@),
                    ),
                decreases list@.len() - i,
            {
                proof {
                    assert(list@.take(i + 1).drop_last() =~= list@.take(i as int));
                    assert(list@.take(i + 1).last() == list@[i as int]);
                }
                match expr_to_string(&list[i]) {
                    Ok(v) => {
                        proof {
                            crate::results::lemma_texts_push(values@, v);
                        }
                        values.push(v);
                    },
                    Err(err) => {
                        proof {
                            let m = literal_of(list@[i as int])->Err_0;
                            assert(literals_of(list@.take(i + 1)) == Err::<Seq<Seq<char>>, Seq<char>>(m));
                            lemma_literals_error(list@, i + 1);
                        }
                        return Err(err);
                    },
                }
                i = i + 1;
            }
            proof {
                assert(list@.take(i as int) =~= list@);
            }
            match expr_column_name(expr) {
                Ok(column) => Ok(Predicate::In { column, values, negated: *negated }),
                Err(err) => Err(err),
            }
        },
        _ => match parse_literal_predicate(e) {
            Ok(l) => Ok(Predicate::Compare(l)),
            Err(err) => Err(err),
        },
    }
}

proof fn lemma_literals_error(list: Seq<FilterExpr>, n: int)
    requires
        0 < n <= list.len(),
        literals_of(list.take(n)) is Err,
    ensures
        literals_of(list) == literals_of(list.take(n)),
    decreases list.len() - n,
{
    if n < list.len() {
        assert(list.take(n + 1).drop_last() =~= list.take(n));
        lemma_literals_error(list, n + 1);
    } else {
        assert(list.take(n) =~= list);
    }
}

/// `e` at the `NOT` level.
fn parse_not(e: &FilterExpr) -> (r: Result<WhereFilter, ExecError>)
    ensures
        match not_error(*e) {
            Some(m) => r matches Err(ExecError::Message(x)) && x@ == m,
            None => r matches Ok(f) && not_form(*e, f),
        },
    decreases e,
{
    match &e.kind {
        ExprKind::Not(inner) => match parse_not(inner) {
            Ok(f) => Ok(WhereFilter::Not(Box::new(f))),
            Err(err) => Err(err),
        },
        _ => match parse_predicate(e) {
            Ok(p) => Ok(WhereFilter::Pred(p)),
            Err(err) => Err(err),
        },
    }
}

/// `e` at the `AND` level.
fn parse_and(e: &FilterExpr) -> (r: Result<WhereFilter, ExecError>)
    ensures
        match and_error(*e) {
            Some(m) => r matches Err(ExecError::Message(x)) && x@ == m,
            None => r matches Ok(f) && and_form(*e, f),
        },
    decreases e,
{
    match &e.kind {
        ExprKind::BinaryOp { left, op: BinaryOp::And, right } => {
            let a = match parse_and(left) {
                Ok(f) => f,
                Err(err) => {
                    return Err(err);
                },
            };
            let b = match parse_and(right) {
                Ok(f) => f,
                Err(err) => {
                    return Err(err);
                },
            };
            Ok(WhereFilter::And(vec![a, b]))
        },
        _ => parse_not(e),
    }
}

/// `e` at the `OR` level.
fn parse_or(e: &FilterExpr) -> (r: Result<WhereFilter, ExecError>)
    ensures
        match or_error(*e) {
            Some(m) => r matches Err(ExecError::Message(x)) && x@ == m,
            None => r matches Ok(f) && or_form(*e, f),
        },
    decreases e,
{
    match &e.kind {
        ExprKind::BinaryOp { left, op: BinaryOp::Or, right } => {
            let a = match parse_or(left) {
                Ok(f) => f,
                Err(err) => {
                    return Err(err);
                },
            };
            let b = match parse_or(right) {
                Ok(f) => f,
                Err(err) => {
                    return Err(err);
                },
            };
            Ok(WhereFilter::Or(vec![a, b]))
        },
        _ => parse_and(e),
    }
}

/// The filter of a `WHERE` clause: `None` without one; `OR` binds loosest, then `AND`, then
/// `NOT`.
pub fn parse_where_filter(selection: Option<&FilterExpr>) -> (r: Result<Option<WhereFilter>, ExecError>)
    ensures
        match selection {
            None => r matches Ok(None),
            Some(e) => match or_error(*e) {
                Some(m) => r matches Err(ExecError::Message(x)) && x@ == m,
                None => r matches Ok(Some(f)) && or_form(*e, f),
            },
        },
{
    match selection {
        None => Ok(None),
        Some(e) => match parse_or(e) {
            Ok(f) => Ok(Some(f)),
            Err(err) => Err(err),
        },
    }
}


/// The texts of a list of column/value pairs.
pub open spec fn pair_texts(v: Seq<(String, String)>) -> Seq<(Seq<char>, Seq<char>)> {
    Seq::new(v.len(), |i: int| (v[i].0@, v[i].1@))
}

/// The `column = value` pair a filter part is, if it is one.
pub open spec fn eq_pair_of(f: WhereFilter) -> Option<(Seq<char>, Seq<char>)> {
    match f {
        WhereFilter::Pred(Predicate::Compare(l)) => if l.op == CompareOp::Eq {
            Some((l.column@, l.value@))
        } else {
            None
        },
        _ => None,
    }
}

/// The `column = value` pairs among `parts`, in order.
pub open spec fn eq_pairs(parts: Seq<WhereFilter>) -> Seq<(Seq<char>, Seq<char>)>
    decreases parts.len(),
{
    if parts.len() == 0 {
        Seq::empty()
    } else {
        eq_pairs(parts.drop_last()) + match eq_pair_of(parts.last()) {
            Some(p) => seq![p],
            None => Seq::empty(),
        }
    }
}

/// The `column = value` pairs a filter is, or of the parts of a top-level `AND`.
pub open spec fn eq_prefix_spec(f: WhereFilter) -> Seq<(Seq<char>, Seq<char>)> {
    match f {
        WhereFilter::And(parts) => eq_pairs(parts@),
        _ => match eq_pair_of(f) {
            Some(p) => seq![p],
            None => Seq::empty(),
        },
    }
}

/// The `column = value` pair of a part, if it is one.
fn eq_pair(f: &WhereFilter) -> (r: Option<(String, String)>)
    ensures
        match eq_pair_of(*f) {
            Some((c, v)) => r matches Some((a, b)) && a@ == c && b@ == v,
            None => r is None,
        },
{
    match f {
        WhereFilter::Pred(Predicate::Compare(l)) => if l.op == CompareOp::Eq {
            Some((owned(l.column.as_str()), owned(l.value.as_str())))
        } else {
            None
        },
        _ => None,
    }
}

/// The `column = value` pairs of a filter: of each such part of a top-level `AND`, or of the
/// filter itself.
pub fn eq_prefix_from_filter(filter: &WhereFilter) -> (r: Vec<(String, String)>)
    ensures
        pair_texts(r@) == eq_prefix_spec(*filter),
{
    let mut out: Vec<(String, String)> = Vec::new();
    match filter {
        WhereFilter::And(parts) => {
            let mut i: usize = 0;
            proof {
                assert(parts@.take(0) =~= Seq::<WhereFilter>::empty());
                assert(pair_texts(out@) =~= Seq::<(Seq<char>, Seq<char>)>::empty());
            }
            while i < parts.len()
                invariant
                    i <= parts@.len(),
                    pair_texts(out@) == eq_pairs(parts@.take(i as int)),
                decreases parts@.len() - i,
            {
                proof {
                    assert(parts@.take(i + 1).drop_last() =~= parts@.take(i as int));
                    assert(parts@.take(i + 1).last() == parts@[i as int]);
                }
                match eq_pair(&parts[i]) {
                    Some(p) => {
                        let ghost before = out@;
                        out.push(p);
                        proof {
                            assert(pair_texts(out@) =~= pair_texts(before) + seq![(p.0@, p.1@)]);
                        }
                    },
                    None => {
                        proof {
                            assert(eq_pairs(parts@.take(i + 1)) =~= eq_pairs(parts@.take(i as int)));
                        }
                    },
                }
                i = i + 1;
            }
            proof {
                assert(parts@.take(i as int) =~= parts@);
            }
        },
        _ => {
            match eq_pair(filter) {
                Some(p) => {
                    out.push(p);
                    proof {
                        assert(pair_texts(out@) =~= seq![(p.0@, p.1@)]);
                    }
                },
                None => {
                    proof {
                        assert(pair_texts(out@) =~= Seq::<(Seq<char>, Seq<char>)>::empty());
                    }
                },
            }
        },
    }
    out
}

/// The `column = value` pair of a filter that is just that comparison.
pub fn eq_predicate_from_filter(filter: &WhereFilter) -> (r: Option<(String, String)>)
    ensures
        match eq_pair_of(*filter) {
            Some((c, v)) => r matches Some((a, b)) && a@ == c && b@ == v,
            None => r is None,
        },
{
    eq_pair(filter)
}

/// The `(column, low, high)` of a filter that is just a `BETWEEN` (not negated).
pub fn between_predicate_from_filter(filter: &WhereFilter) -> (r: Option<(String, String, String)>)
    ensures
        match *filter {
            WhereFilter::Pred(Predicate::Between { column, low, high, negated }) => if !negated {
                r matches Some((a, b, c)) && a@ == column@ && b@ == low@ && c@ == high@
            } else {
                r is None
            },
            _ => r is None,
        },
{
    match filter {
        WhereFilter::Pred(Predicate::Between { column, low, high, negated }) => if !*negated {
            Some((owned(column.as_str()), owned(low.as_str()), owned(high.as_str())))
        } else {
            None
        },
        _ => None,
    }
}

/// The `column = value` pair a `WHERE` expression parses to, when it is just that comparison.
pub open spec fn eq_pair_of_expr(e: FilterExpr) -> Option<(Seq<char>, Seq<char>)> {
    match e.kind {
        ExprKind::BinaryOp { op: BinaryOp::Or, .. } => None,
        ExprKind::BinaryOp { op: BinaryOp::And, .. } => None,
        ExprKind::Not(_) => None,
        _ => match pred_of(e) {
            Ok(PredView::Compare { column, op: CompareOp::Eq, value }) => Some((column, value)),
            _ => None,
        },
    }
}

proof fn lemma_eq_pair_of_parsed(e: FilterExpr, f: WhereFilter)
    requires
        or_form(e, f),
    ensures
        eq_pair_of(f) == eq_pair_of_expr(e),
{
}

/// The `column = value` pair of a `WHERE` clause that is just that comparison; `None` when
/// there is no clause, it does not parse, or it is anything else.
pub fn extract_eq_predicate(selection: Option<&FilterExpr>) -> (r: Option<(String, String)>)
    ensures
        match selection {
            Some(e) => match (or_error(*e), eq_pair_of_expr(*e)) {
                (None, Some((c, v))) => r matches Some((a, b)) && a@ == c && b@ == v,
                _ => r is None,
            },
            None => r is None,
        },
{
    match parse_where_filter(selection) {
        Ok(Some(f)) => {
            proof {
                lemma_eq_pair_of_parsed(*selection.unwrap(), f);
            }
            eq_predicate_from_filter(&f)
        },
        _ => None,
    }
}


/// Negating a `LIKE`, `BETWEEN` or `IN` predicate gives the opposite answer on every row
/// (a missing column or cell fails the plain form, so it passes the negated one).
pub proof fn lemma_negation_flips(
    row: Seq<Seq<char>>,
    columns: Seq<Seq<char>>,
    column: Seq<char>,
    pattern: Seq<char>,
    low: Seq<char>,
    high: Seq<char>,
    values: Seq<Seq<char>>,
    collations: Seq<Collation>,
)
    ensures
        pred_holds(row, columns, PredView::Like { column, pattern, negated: true }, collations)
            == !pred_holds(row, columns, PredView::Like { column, pattern, negated: false }, collations),
        pred_holds(row, columns, PredView::Between { column, low, high, negated: true }, collations)
            == !pred_holds(row, columns, PredView::Between { column, low, high, negated: false }, collations),
        pred_holds(row, columns, PredView::In { column, values, negated: true }, collations)
            == !pred_holds(row, columns, PredView::In { column, values, negated: false }, collations),
{
}

/// `BETWEEN` on integers includes both ends: where the row's cell `c` of the column and both
/// bounds read as `i64` values `x`, `lo` and `hi`, the row passes exactly when `lo <= x <= hi`.
pub proof fn lemma_between_inclusive(
    row: Seq<Seq<char>>,
    columns: Seq<Seq<char>>,
    column: Seq<char>,
    low: Seq<char>,
    high: Seq<char>,
    collations: Seq<Collation>,
    i: int,
    c: Seq<char>,
    x: int,
    lo: int,
    hi: int,
)
    requires
        cell_of(row, columns, column) == Some((i, c)),
        int_value(c) == Some(x),
        int_value(low) == Some(lo),
        int_value(high) == Some(hi),
    ensures
        pred_holds(row, columns, PredView::Between { column, low, high, negated: false }, collations)
            <==> (lo <= x && x <= hi),
{
}


/// Comparing two integers: where the cell and the literal read as integers `a` and `b`, each
/// operator is the arithmetic comparison of `a` and `b`.
pub proof fn lemma_integer_compare(x: Seq<char>, y: Seq<char>, collation: Collation, a: int, b: int)
    requires
        int_value(x) == Some(a),
        int_value(y) == Some(b),
    ensures
        compare_holds(x, CompareOp::Eq, y, collation) == (a == b),
        compare_holds(x, CompareOp::NotEq, y, collation) == (a != b),
        compare_holds(x, CompareOp::Lt, y, collation) == (a < b),
        compare_holds(x, CompareOp::LtEq, y, collation) == (a <= b),
        compare_holds(x, CompareOp::Gt, y, collation) == (a > b),
        compare_holds(x, CompareOp::GtEq, y, collation) == (a >= b),
{
}

/// For any two texts, `<=` is `<` or `=`, `>=` is `>` or `=`, `!=` is not `=`; and every text
/// is `=`, `<=` and `>=` to itself and neither `<` nor `>` itself.
pub proof fn lemma_compare_laws(x: Seq<char>, y: Seq<char>, collation: Collation)
    ensures
        compare_holds(x, CompareOp::LtEq, y, collation) == (compare_holds(x, CompareOp::Lt, y, collation)
            || compare_holds(x, CompareOp::Eq, y, collation)),
        compare_holds(x, CompareOp::GtEq, y, collation) == (compare_holds(x, CompareOp::Gt, y, collation)
            || compare_holds(x, CompareOp::Eq, y, collation)),
        compare_holds(x, CompareOp::NotEq, y, collation) == !compare_holds(x, CompareOp::Eq, y, collation),
        compare_holds(x, CompareOp::Eq, x, collation),
        compare_holds(x, CompareOp::LtEq, x, collation),
        compare_holds(x, CompareOp::GtEq, x, collation),
        !compare_holds(x, CompareOp::Lt, x, collation),
        !compare_holds(x, CompareOp::Gt, x, collation),
{
    crate::collation::lemma_compare_total_order(collation, x, y, x);
    crate::collation::lemma_compare_total_order(collation, x, x, x);
}

/// A row passes `column op literal` exactly when the arithmetic comparison holds, where the
/// row's cell of the column and the literal read as integers `a` and `b`.
pub proof fn lemma_row_integer_comparison(
    row: Seq<Seq<char>>,
    columns: Seq<Seq<char>>,
    column: Seq<char>,
    value: Seq<char>,
    collations: Seq<Collation>,
    i: int,
    c: Seq<char>,
    a: int,
    b: int,
)
    requires
        cell_of(row, columns, column) == Some((i, c)),
        int_value(c) == Some(a),
        int_value(value) == Some(b),
    ensures
        pred_holds(row, columns, PredView::Compare { column, op: CompareOp::Eq, value }, collations) == (a == b),
        pred_holds(row, columns, PredView::Compare { column, op: CompareOp::NotEq, value }, collations) == (a != b),
        pred_holds(row, columns, PredView::Compare { column, op: CompareOp::Lt, value }, collations) == (a < b),
        pred_holds(row, columns, PredView::Compare { column, op: CompareOp::LtEq, value }, collations) == (a <= b),
        pred_holds(row, columns, PredView::Compare { column, op: CompareOp::Gt, value }, collations) == (a > b),
        pred_holds(row, columns, PredView::Compare { column, op: CompareOp::GtEq, value }, collations) == (a >= b),
{
    lemma_integer_compare(c, value, collation_of(collations, i), a, b);
}

proof fn lemma_all_hold_forall(row: Seq<Seq<char>>, columns: Seq<Seq<char>>, parts: Seq<WhereFilter>, collations: Seq<Collation>, n: nat)
    requires
        n <= parts.len(),
    ensures
        all_hold(row, columns, parts, collations, n) <==> forall|k: int| 0 <= k < n ==> #[trigger] filter_holds(row, columns, parts[k], collations),
        any_holds(row, columns, parts, collations, n) <==> exists|k: int| 0 <= k < n && #[trigger] filter_holds(row, columns, parts[k], collations),
    decreases n,
{
    if n > 0 {
        let m = (n - 1) as nat;
        lemma_all_hold_forall(row, columns, parts, collations, m);
        let last = filter_holds(row, columns, parts[n - 1], collations);
        if all_hold(row, columns, parts, collations, n) {
            assert forall|k: int| 0 <= k < n implies #[trigger] filter_holds(row, columns, parts[k], collations) by {
                if k < m {
                } else {
                    assert(k == n - 1);
                }
            }
        }
        if forall|k: int| 0 <= k < n ==> #[trigger] filter_holds(row, columns, parts[k], collations) {
            assert(last);
            assert forall|k: int| 0 <= k < m implies #[trigger] filter_holds(row, columns, parts[k], collations) by {
            }
        }
        if any_holds(row, columns, parts, collations, n) {
            if !last {
                let k = choose|k: int| 0 <= k < m && #[trigger] filter_holds(row, columns, parts[k], collations);
                assert(0 <= k < n && filter_holds(row, columns, parts[k], collations));
            } else {
                assert(0 <= n - 1 < n && filter_holds(row, columns, parts[n - 1], collations));
            }
        }
        if exists|k: int| 0 <= k < n && #[trigger] filter_holds(row, columns, parts[k], collations) {
            let k = choose|k: int| 0 <= k < n && #[trigger] filter_holds(row, columns, parts[k], collations);
            if k < m {
                assert(0 <= k < m && filter_holds(row, columns, parts[k], collations));
            } else {
                assert(k == n - 1);
            }
        }
    }
}

/// `AND` holds of a row exactly when every part does, `OR` exactly when some part does, and
/// `NOT` exactly when its part does not.
pub proof fn lemma_filter_connectives(row: Seq<Seq<char>>, columns: Seq<Seq<char>>, f: WhereFilter, collations: Seq<Collation>)
    ensures
        f matches WhereFilter::And(parts) ==> (filter_holds(row, columns, f, collations) <==> forall|k: int|
            0 <= k < parts@.len() ==> #[trigger] filter_holds(row, columns, parts@[k], collations)),
        f matches WhereFilter::Or(parts) ==> (filter_holds(row, columns, f, collations) <==> exists|k: int|
            0 <= k < parts@.len() && #[trigger] filter_holds(row, columns, parts@[k], collations)),
        f matches WhereFilter::Not(inner) ==> (filter_holds(row, columns, f, collations) <==> !filter_holds(row, columns, *inner, collations)),
{
    match f {
        WhereFilter::And(parts) => {
            lemma_all_hold_forall(row, columns, parts@, collations, parts@.len());
        },
        WhereFilter::Or(parts) => {
            lemma_all_hold_forall(row, columns, parts@, collations, parts@.len());
        },
        _ => {},
    }
}

/// Filtering keeps exactly the rows the filter holds of, in their order: every kept row is an
/// input row the filter holds of, every input row it holds of is kept, and no row is kept that
/// it does not hold of.
pub proof fn lemma_filter_keeps_exactly(rows: Seq<Seq<Seq<char>>>, columns: Seq<Seq<char>>, f: WhereFilter, collations: Seq<Collation>)
    ensures
        forall|k: int| 0 <= k < kept_rows(rows, columns, f, collations).len() ==> filter_holds(
            #[trigger] kept_rows(rows, columns, f, collations)[k],
            columns,
            f,
            collations,
        ) && rows.contains(kept_rows(rows, columns, f, collations)[k]),
        forall|i: int| 0 <= i < rows.len() && filter_holds(#[trigger] rows[i], columns, f, collations) ==> kept_rows(
            rows,
            columns,
            f,
            collations,
        ).contains(rows[i]),
        kept_rows(rows, columns, f, collations).len() <= rows.len(),
    decreases rows.len(),
{
    if rows.len() > 0 {
        let d = rows.drop_last();
        lemma_filter_keeps_exactly(d, columns, f, collations);
        let b = kept_rows(d, columns, f, collations);
        let kr = kept_rows(rows, columns, f, collations);
        assert forall|k: int| 0 <= k < kr.len() implies filter_holds(#[trigger] kr[k], columns, f, collations)
            && rows.contains(kr[k]) by {
            if k < b.len() {
                assert(kr[k] == b[k]);
                let j = choose|j: int| 0 <= j < d.len() && d[j] == b[k];
                assert(rows[j] == d[j]);
            } else {
                assert(kr[k] == rows.last());
                assert(rows[rows.len() - 1] == rows.last());
            }
        }
        assert forall|i: int| 0 <= i < rows.len() && filter_holds(#[trigger] rows[i], columns, f, collations) implies kr.contains(rows[i]) by {
            if i < d.len() {
                assert(d[i] == rows[i]);
                let k = choose|k: int| 0 <= k < b.len() && b[k] == d[i];
                assert(kr[k] == b[k]);
            } else {
                assert(rows[i] == rows.last());
                assert(kr[b.len() as int] == rows.last());
            }
        }
    }
}

/// Filtering keeps, in their order, exactly the rows the filter holds of.
pub proof fn lemma_kept_rows_in_order(rows: Seq<Seq<Seq<char>>>, columns: Seq<Seq<char>>, f: WhereFilter, collations: Seq<Collation>)
    ensures
        kept_rows(rows, columns, f, collations) == rows.filter(kept_by(columns, f, collations)),
    decreases rows.len(),
{
    let pred = kept_by(columns, f, collations);
    reveal(Seq::filter);
    if rows.len() > 0 {
        lemma_kept_rows_in_order(rows.drop_last(), columns, f, collations);
        assert(pred(rows.last()) == filter_holds(rows.last(), columns, f, collations));
    }
}

/// The test a filter puts to each row.
pub open spec fn kept_by(columns: Seq<Seq<char>>, f: WhereFilter, collations: Seq<Collation>) -> spec_fn(Seq<Seq<char>>) -> bool {
    |r: Seq<Seq<char>>| filter_holds(r, columns, f, collations)
}

/// Comparison reads the same both ways round: `x < y` is `y > x`, `x <= y` is `y >= x`, and
/// `x = y` is `y = x`; and of `<`, `=` and `>` exactly one holds.
pub proof fn lemma_compare_converse(x: Seq<char>, y: Seq<char>, collation: Collation)
    ensures
        compare_holds(x, CompareOp::Lt, y, collation) == compare_holds(y, CompareOp::Gt, x, collation),
        compare_holds(x, CompareOp::LtEq, y, collation) == compare_holds(y, CompareOp::GtEq, x, collation),
        compare_holds(x, CompareOp::Eq, y, collation) == compare_holds(y, CompareOp::Eq, x, collation),
        compare_holds(x, CompareOp::Lt, y, collation) || compare_holds(x, CompareOp::Eq, y, collation)
            || compare_holds(x, CompareOp::Gt, y, collation),
        !(compare_holds(x, CompareOp::Lt, y, collation) && compare_holds(x, CompareOp::Eq, y, collation)),
        !(compare_holds(x, CompareOp::Lt, y, collation) && compare_holds(x, CompareOp::Gt, y, collation)),
        !(compare_holds(x, CompareOp::Eq, y, collation) && compare_holds(x, CompareOp::Gt, y, collation)),
{
    crate::collation::lemma_compare_total_order(collation, x, y, x);
    crate::collation::lemma_compare_total_order(collation, y, x, y);
}
} // verus!
