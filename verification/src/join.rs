//! Nested-loop `INNER`, `LEFT` and `RIGHT` joins of two tables on one equality.
use vstd::prelude::*;
use crate::catalog::texts;
use crate::executor::push_str;
use crate::info_schema::copy_row;
use crate::results::{lemma_rows_view_push, rows_view, ExecError, Row};
use crate::text::{eq_ignore_ascii_case, eq_ignore_case_seq, owned, string_from_chars};
use crate::where_filter::{column_index, column_position, BinaryOp, ExprKind, FilterExpr};

verus! {

/// The kind of a join.
#[derive(Debug, Clone, Copy, PartialEq, Eq)]
pub enum JoinKind {
    Inner,
    Left,
    Right,
}

/// One table of a join: its name, the alias it goes by, and its columns.
#[derive(Debug, Clone, PartialEq, Eq)]
pub struct JoinSide {
    pub table_name: String,
    pub alias: String,
    pub columns: Vec<String>,
}

/// The equality a join is on: `left_qualifier.left_col = right_qualifier.right_col`.
#[derive(Debug, Clone, PartialEq, Eq)]
pub struct JoinKey {
    pub left_qualifier: String,
    pub left_col: String,
    pub right_qualifier: String,
    pub right_col: String,
}

/// Whether `q` names the side, by its alias or its table name, ASCII case ignored.
pub open spec fn side_matches_spec(side: JoinSide, q: Seq<char>) -> bool {
    eq_ignore_case_seq(side.alias@, q) || eq_ignore_case_seq(side.table_name@, q)
}

/// Cell `i` of a row, if the row has one.
pub open spec fn cell_at(row: Seq<Seq<char>>, i: int) -> Option<Seq<char>> {
    if 0 <= i < row.len() {
        Some(row[i])
    } else {
        None
    }
}

/// Whether a left and a right row agree on the key cells (two missing cells agree).
pub open spec fn rows_agree(lr: Seq<Seq<char>>, rr: Seq<Seq<char>>, li: int, ri: int) -> bool {
    cell_at(lr, li) == cell_at(rr, ri)
}

/// `n` empty cells.
pub open spec fn pad(n: nat) -> Seq<Seq<char>> {
    Seq::new(n, |i: int| Seq::<char>::empty())
}

/// The joined rows of left row `lr` with each agreeing row of `rights`, in order.
pub open spec fn left_matches(lr: Seq<Seq<char>>, rights: Seq<Seq<Seq<char>>>, li: int, ri: int) -> Seq<Seq<Seq<char>>>
    decreases rights.len(),
{
    if rights.len() == 0 {
        Seq::empty()
    } else {
        left_matches(lr, rights.drop_last(), li, ri) + if rows_agree(lr, rights.last(), li, ri) {
            seq![lr + rights.last()]
        } else {
            Seq::empty()
        }
    }
}

/// The joined rows of each agreeing row of `lefts`, in order, with right row `rr`.
pub open spec fn right_matches(rr: Seq<Seq<char>>, lefts: Seq<Seq<Seq<char>>>, li: int, ri: int) -> Seq<Seq<Seq<char>>>
    decreases lefts.len(),
{
    if lefts.len() == 0 {
        Seq::empty()
    } else {
        right_matches(rr, lefts.drop_last(), li, ri) + if rows_agree(lefts.last(), rr, li, ri) {
            seq![lefts.last() + rr]
        } else {
            Seq::empty()
        }
    }
}

/// The rows the outer loop emits for one driving row: its matches, or, when it has none and
/// the join is outer, the row padded on the other side.
pub open spec fn outer_or(matches: Seq<Seq<Seq<char>>>, padded: Seq<Seq<char>>, outer: bool) -> Seq<Seq<Seq<char>>> {
    if matches.len() == 0 && outer {
        seq![padded]
    } else {
        matches
    }
}

/// The rows of an `INNER` (`outer` false) or `LEFT` join, left rows driving.
pub open spec fn left_driven(
    lefts: Seq<Seq<Seq<char>>>,
    rights: Seq<Seq<Seq<char>>>,
    li: int,
    ri: int,
    right_width: nat,
    outer: bool,
) -> Seq<Seq<Seq<char>>>
    decreases lefts.len(),
{
    if lefts.len() == 0 {
        Seq::empty()
    } else {
        left_driven(lefts.drop_last(), rights, li, ri, right_width, outer) + outer_or(
            left_matches(lefts.last(), rights, li, ri),
            lefts.last() + pad(right_width),
            outer,
        )
    }
}

/// The rows of a `RIGHT` join, right rows driving.
pub open spec fn right_driven(
    lefts: Seq<Seq<Seq<char>>>,
    rights: Seq<Seq<Seq<char>>>,
    li: int,
    ri: int,
    left_width: nat,
) -> Seq<Seq<Seq<char>>>
    decreases rights.len(),
{
    if rights.len() == 0 {
        Seq::empty()
    } else {
        right_driven(lefts, rights.drop_last(), li, ri, left_width) + outer_or(
            right_matches(rights.last(), lefts, li, ri),
            pad(left_width) + rights.last(),
            true,
        )
    }
}

/// The message for a column a side does not have.
pub open spec fn unknown_column_msg(col: Seq<char>) -> Seq<char> {
    "unknown column '"@ + col + "'"@
}

/// The message for qualifiers that name neither pairing of the two tables.
pub open spec fn qualifier_mismatch_msg() -> Seq<char> {
    "JOIN ON qualifiers do not match FROM tables"@
}

/// What a join gives: the key columns (the qualifiers matched to the sides, swapped when that
/// is how they match), their positions, then the left columns followed by the right ones and
/// the joined rows; or the error message.
pub open spec fn join_spec(
    kind: JoinKind,
    left: JoinSide,
    lefts: Seq<Seq<Seq<char>>>,
    right: JoinSide,
    rights: Seq<Seq<Seq<char>>>,
    key: JoinKey,
) -> Result<(Seq<Seq<char>>, Seq<Seq<Seq<char>>>), Seq<char>> {
    let pair: Option<(Seq<char>, Seq<char>)> = if side_matches_spec(left, key.left_qualifier@)
        && side_matches_spec(right, key.right_qualifier@) {
        Some((key.left_col@, key.right_col@))
    } else if side_matches_spec(left, key.right_qualifier@) && side_matches_spec(right, key.left_qualifier@) {
        Some((key.right_col@, key.left_col@))
    } else {
        None
    };
    match pair {
        None => Err(qualifier_mismatch_msg()),
        Some((lc, rc)) => match column_position(texts(left.columns@), lc) {
            None => Err(unknown_column_msg(lc)),
            Some(li) => match column_position(texts(right.columns@), rc) {
                None => Err(unknown_column_msg(rc)),
                Some(ri) => Ok((
                    texts(left.columns@) + texts(right.columns@),
                    match kind {
                        JoinKind::Inner => left_driven(lefts, rights, li, ri, right.columns@.len(), false),
                        JoinKind::Left => left_driven(lefts, rights, li, ri, right.columns@.len(), true),
                        JoinKind::Right => right_driven(lefts, rights, li, ri, left.columns@.len()),
                    },
                )),
            },
        },
    }
}

/// Whether `q` names the side.
fn side_matches(side: &JoinSide, q: &str) -> (r: bool)
    ensures
        r == side_matches_spec(*side, q@),
{
    eq_ignore_ascii_case(side.alias.as_str(), q) || eq_ignore_ascii_case(side.table_name.as_str(), q)
}

/// Whether two rows agree on the key cells.
fn agree(lr: &Row, rr: &Row, li: usize, ri: usize) -> (r: bool)
    ensures
        r == rows_agree(texts(lr@), texts(rr@), li as int, ri as int),
{
    if li < lr.len() && ri < rr.len() {
        crate::text::str_eq(lr[li].as_str(), rr[ri].as_str())
    } else {
        li >= lr.len() && ri >= rr.len()
    }
}

/// `a` followed by `b`.
fn concat_row(a: &Row, b: &Row) -> (r: Row)
    ensures
        texts(r@) == texts(a@) + texts(b@),
{
    let mut out = copy_row(a);
    let ghost base = texts(out@);
    let mut i: usize = 0;
    while i < b.len()
        invariant
            i <= b@.len(),
            base == texts(a@),
            texts(out@) == base + texts(b@).take(i as int),
        decreases b@.len() - i,
    {
        let c = owned(b[i].as_str());
        proof {
            crate::results::lemma_texts_push(out@, c);
            assert(texts(b@).take(i + 1) =~= texts(b@).take(i as int).push(c@));
        }
        out.push(c);
        i = i + 1;
        proof {
            assert(texts(out@) =~= base + texts(b@).take(i as int));
        }
    }
    proof {
        assert(texts(b@).take(i as int) =~= texts(b@));
    }
    out
}

/// `n` empty cells.
fn pad_row(n: usize) -> (r: Row)
    ensures
        texts(r@) == pad(n as nat),
{
    let mut out: Row = Vec::new();
    let mut i: usize = 0;
    while i < n
        invariant
            i <= n,
            texts(out@) == pad(i as nat),
        decreases n - i,
    {
        let c = owned("");
        proof {
            reveal_strlit("");
            assert(c@ =~= Seq::<char>::empty());
            crate::results::lemma_texts_push(out@, c);
        }
        out.push(c);
        i = i + 1;
        proof {
            assert(texts(out@) =~= pad(i as nat));
        }
    }
    out
}

/// `unknown column 'col'`.
fn unknown_column(col: &str) -> (r: String)
    ensures
        r@ == unknown_column_msg(col@),
{
    let mut v: Vec<char> = Vec::new();
    push_str(&mut v, "unknown column '");
    push_str(&mut v, col);
    push_str(&mut v, "'");
    string_from_chars(v.as_slice())
}

/// Appends the joined rows of `lr` with each agreeing row of `rights`.
fn push_left_matches(out: &mut Vec<Row>, lr: &Row, rights: &Vec<Row>, li: usize, ri: usize)
    ensures
        rows_view(final(out)@) == rows_view(old(out)@) + left_matches(texts(lr@), rows_view(rights@), li as int, ri as int),
{
    let ghost start = rows_view(out@);
    let ghost rv = rows_view(rights@);
    let mut j: usize = 0;
    proof {
        assert(rv.take(0) =~= Seq::<Seq<Seq<char>>>::empty());
        assert(start + left_matches(texts(lr@), rv.take(0), li as int, ri as int) =~= start);
    }
    while j < rights.len()
        invariant
            j <= rights@.len(),
            rv == rows_view(rights@),
            rows_view(out@) == start + left_matches(texts(lr@), rv.take(j as int), li as int, ri as int),
        decreases rights@.len() - j,
    {
        let rr = &rights[j];
        proof {
            assert(rv.take(j + 1).drop_last() =~= rv.take(j as int));
            assert(rv.take(j + 1).last() == texts(rr@));
        }
        if agree(lr, rr, li, ri) {
            let row = concat_row(lr, rr);
            proof {
                lemma_rows_view_push(out@, row);
            }
            out.push(row);
        }
        proof {
            assert(rows_view(out@) =~= start + left_matches(texts(lr@), rv.take(j + 1), li as int, ri as int));
        }
        j = j + 1;
    }
    proof {
        assert(rv.take(j as int) =~= rv);
    }
}

/// Appends the joined rows of each agreeing row of `lefts` with `rr`.
fn push_right_matches(out: &mut Vec<Row>, rr: &Row, lefts: &Vec<Row>, li: usize, ri: usize)
    ensures
        rows_view(final(out)@) == rows_view(old(out)@) + right_matches(texts(rr@), rows_view(lefts@), li as int, ri as int),
{
    let ghost start = rows_view(out@);
    let ghost lv = rows_view(lefts@);
    let mut j: usize = 0;
    proof {
        assert(lv.take(0) =~= Seq::<Seq<Seq<char>>>::empty());
        assert(start + right_matches(texts(rr@), lv.take(0), li as int, ri as int) =~= start);
    }
    while j < lefts.len()
        invariant
            j <= lefts@.len(),
            lv == rows_view(lefts@),
            rows_view(out@) == start + right_matches(texts(rr@), lv.take(j as int), li as int, ri as int),
        decreases lefts@.len() - j,
    {
        let lr = &lefts[j];
        proof {
            assert(lv.take(j + 1).drop_last() =~= lv.take(j as int));
            assert(lv.take(j + 1).last() == texts(lr@));
        }
        if agree(lr, rr, li, ri) {
            let row = concat_row(lr, rr);
            proof {
                lemma_rows_view_push(out@, row);
            }
            out.push(row);
        }
        proof {
            assert(rows_view(out@) =~= start + right_matches(texts(rr@), lv.take(j + 1), li as int, ri as int));
        }
        j = j + 1;
    }
    proof {
        assert(lv.take(j as int) =~= lv);
    }
}

/// The rows of an inner or left join, left rows driving.
fn join_left_driven(lefts: &Vec<Row>, rights: &Vec<Row>, li: usize, ri: usize, right_width: usize, outer: bool) -> (r: Vec<Row>)
    ensures
        rows_view(r@) == left_driven(rows_view(lefts@), rows_view(rights@), li as int, ri as int, right_width as nat, outer),
{
    let ghost lv = rows_view(lefts@);
    let ghost rv = rows_view(rights@);
    let mut out: Vec<Row> = Vec::new();
    let mut i: usize = 0;
    proof {
        assert(lv.take(0) =~= Seq::<Seq<Seq<char>>>::empty());
        assert(rows_view(out@) =~= Seq::<Seq<Seq<char>>>::empty());
    }
    while i < lefts.len()
        invariant
            i <= lefts@.len(),
            lv == rows_view(lefts@),
            rv == rows_view(rights@),
            rows_view(out@) == left_driven(lv.take(i as int), rv, li as int, ri as int, right_width as nat, outer),
        decreases lefts@.len() - i,
    {
        let lr = &lefts[i];
        proof {
            assert(lv.take(i + 1).drop_last() =~= lv.take(i as int));
            assert(lv.take(i + 1).last() == texts(lr@));
        }
        let before = out.len();
        let ghost prev = rows_view(out@);
        push_left_matches(&mut out, lr, rights, li, ri);
        let ghost m = left_matches(texts(lr@), rv, li as int, ri as int);
        proof {
            assert(prev.len() == before);
            assert(rows_view(out@).len() == out@.len());
            assert(rows_view(out@) == prev + m);
            assert(out@.len() == before + m.len());
        }
        if outer && out.len() == before {
            let p = pad_row(right_width);
            let row = concat_row(lr, &p);
            proof {
                assert(m.len() == 0);
                assert(rows_view(out@) =~= prev);
                lemma_rows_view_push(out@, row);
            }
            out.push(row);
            proof {
                assert(rows_view(out@) =~= prev + outer_or(m, texts(lr@) + pad(right_width as nat), outer));
            }
        } else {
            proof {
                assert(outer_or(m, texts(lr@) + pad(right_width as nat), outer) == m);
            }
        }
        i = i + 1;
    }
    proof {
        assert(lv.take(i as int) =~= lv);
    }
    out
}

/// The rows of a right join, right rows driving.
fn join_right_driven(lefts: &Vec<Row>, rights: &Vec<Row>, li: usize, ri: usize, left_width: usize) -> (r: Vec<Row>)
    ensures
        rows_view(r@) == right_driven(rows_view(lefts@), rows_view(rights@), li as int, ri as int, left_width as nat),
{
    let ghost lv = rows_view(lefts@);
    let ghost rv = rows_view(rights@);
    let mut out: Vec<Row> = Vec::new();
    let mut i: usize = 0;
    proof {
        assert(rv.take(0) =~= Seq::<Seq<Seq<char>>>::empty());
        assert(rows_view(out@) =~= Seq::<Seq<Seq<char>>>::empty());
    }
    while i < rights.len()
        invariant
            i <= rights@.len(),
            lv == rows_view(lefts@),
            rv == rows_view(rights@),
            rows_view(out@) == right_driven(lv, rv.take(i as int), li as int, ri as int, left_width as nat),
        decreases rights@.len() - i,
    {
        let rr = &rights[i];
        proof {
            assert(rv.take(i + 1).drop_last() =~= rv.take(i as int));
            assert(rv.take(i + 1).last() == texts(rr@));
        }
        let before = out.len();
        let ghost prev = rows_view(out@);
        push_right_matches(&mut out, rr, lefts, li, ri);
        let ghost m = right_matches(texts(rr@), lv, li as int, ri as int);
        proof {
            assert(prev.len() == before);
            assert(rows_view(out@).len() == out@.len());
            assert(rows_view(out@) == prev + m);
            assert(out@.len() == before + m.len());
        }
        if out.len() == before {
            let p = pad_row(left_width);
            let row = concat_row(&p, rr);
            proof {
                assert(m.len() == 0);
                assert(rows_view(out@) =~= prev);
                lemma_rows_view_push(out@, row);
            }
            out.push(row);
            proof {
                assert(rows_view(out@) =~= prev + outer_or(m, pad(left_width as nat) + texts(rr@), true));
            }
        } else {
            proof {
                assert(outer_or(m, pad(left_width as nat) + texts(rr@), true) == m);
            }
        }
        i = i + 1;
    }
    proof {
        assert(rv.take(i as int) =~= rv);
    }
    out
}

/// Joins the rows of two tables on one column equality: the output columns are the left
/// columns then the right ones; an inner join emits, for each left row and then each right
/// row in order, the two rows together where the key cells agree; a left join also emits an
/// unmatched left row padded with empty cells; a right join is driven by the right rows and
/// emits an unmatched right row after the padding. Errors: qualifiers that name neither
/// pairing of the tables, or a key column a side does not have.
pub fn nested_loop_join(
    kind: JoinKind,
    left: &JoinSide,
    left_rows: Vec<Row>,
    right: &JoinSide,
    right_rows: Vec<Row>,
    key: &JoinKey,
) -> (r: Result<(Vec<String>, Vec<Row>), ExecError>)
    ensures
        match join_spec(kind, *left, rows_view(left_rows@), *right, rows_view(right_rows@), *key) {
            Ok((cols, rows)) => r matches Ok((c, rs)) && texts(c@) == cols && rows_view(rs@) == rows,
            Err(m) => r matches Err(ExecError::Message(e)) && e@ == m,
        },
{
    let (left_col, right_col) = if side_matches(left, key.left_qualifier.as_str()) && side_matches(
        right,
        key.right_qualifier.as_str(),
    ) {
        (key.left_col.as_str(), key.right_col.as_str())
    } else if side_matches(left, key.right_qualifier.as_str()) && side_matches(right, key.left_qualifier.as_str()) {
        (key.right_col.as_str(), key.left_col.as_str())
    } else {
        return Err(ExecError::Message(owned("JOIN ON qualifiers do not match FROM tables")));
    };
    let li = match column_index(left.columns.as_slice(), left_col) {
        Some(i) => i,
        None => {
            return Err(ExecError::Message(unknown_column(left_col)));
        },
    };
    let ri = match column_index(right.columns.as_slice(), right_col) {
        Some(i) => i,
        None => {
            return Err(ExecError::Message(unknown_column(right_col)));
        },
    };
    let mut columns: Vec<String> = Vec::new();
    let mut k: usize = 0;
    while k < left.columns.len()
        invariant
            k <= left.columns@.len(),
            texts(columns@) == texts(left.columns@).take(k as int),
        decreases left.columns@.len() - k,
    {
        let c = owned(left.columns[k].as_str());
        proof {
            crate::results::lemma_texts_push(columns@, c);
            assert(texts(left.columns@).take(k + 1) =~= texts(left.columns@).take(k as int).push(c@));
        }
        columns.push(c);
        k = k + 1;
    }
    let ghost lcols = texts(left.columns@);
    proof {
        assert(lcols.take(k as int) =~= lcols);
    }
    let mut k: usize = 0;
    while k < right.columns.len()
        invariant
            k <= right.columns@.len(),
            texts(columns@) == lcols + texts(right.columns@).take(k as int),
        decreases right.columns@.len() - k,
    {
        let c = owned(right.columns[k].as_str());
        proof {
            crate::results::lemma_texts_push(columns@, c);
            assert(texts(right.columns@).take(k + 1) =~= texts(right.columns@).take(k as int).push(c@));
            assert(lcols + texts(right.columns@).take(k + 1) =~= (lcols + texts(right.columns@).take(k as int)).push(c@));
        }
        columns.push(c);
        k = k + 1;
    }
    proof {
        assert(texts(right.columns@).take(k as int) =~= texts(right.columns@));
    }
    let rows = match kind {
        JoinKind::Inner => join_left_driven(&left_rows, &right_rows, li, ri, right.columns.len(), false),
        JoinKind::Left => join_left_driven(&left_rows, &right_rows, li, ri, right.columns.len(), true),
        JoinKind::Right => join_right_driven(&left_rows, &right_rows, li, ri, left.columns.len()),
    };
    Ok((columns, rows))
}


/// The qualifier and column a join operand names: the last two parts of a dotted name, or no
/// qualifier for a bare name; else the error text.
pub open spec fn qualified_spec(e: FilterExpr) -> Result<(Seq<char>, Seq<char>), Seq<char>> {
    match e.kind {
        ExprKind::CompoundIdentifier(parts) if parts@.len() >= 2 => Ok(
            (parts@[parts@.len() - 2]@, parts@.last()@),
        ),
        ExprKind::Identifier(id) => Ok((Seq::<char>::empty(), id@)),
        _ => Err("unsupported JOIN column: "@ + e.text@),
    }
}

/// The key of `ON a.x = b.y`: an error unless the condition is an equality of two column
/// references.
pub open spec fn join_key_spec(e: FilterExpr) -> Result<(Seq<char>, Seq<char>, Seq<char>, Seq<char>), Seq<char>> {
    match e.kind {
        ExprKind::BinaryOp { left, op: BinaryOp::Eq, right } => match qualified_spec(*left) {
            Err(m) => Err(m),
            Ok((lq, lc)) => match qualified_spec(*right) {
                Err(m) => Err(m),
                Ok((rq, rc)) => Ok((lq, lc, rq, rc)),
            },
        },
        _ => Err("JOIN ON requires equality"@),
    }
}

/// The qualifier and column a join operand names.
pub fn qualified_column(e: &FilterExpr) -> (r: Result<(String, String), ExecError>)
    ensures
        match qualified_spec(*e) {
            Ok((q, c)) => r matches Ok((a, b)) && a@ == q && b@ == c,
            Err(m) => r matches Err(ExecError::Message(x)) && x@ == m,
        },
{
    match &e.kind {
        ExprKind::CompoundIdentifier(parts) => {
            if parts.len() >= 2 {
                return Ok((owned(parts[parts.len() - 2].as_str()), owned(parts[parts.len() - 1].as_str())));
            }
        },
        ExprKind::Identifier(id) => {
            let q = owned("");
            proof {
                reveal_strlit("");
                assert(q@ =~= Seq::<char>::empty());
            }
            return Ok((q, owned(id.as_str())));
        },
        _ => {},
    }
    let mut v: Vec<char> = Vec::new();
    push_str(&mut v, "unsupported JOIN column: ");
    push_str(&mut v, e.text.as_str());
    Err(ExecError::Message(string_from_chars(v.as_slice())))
}

/// Reads the key of `ON a.x = b.y`.
pub fn parse_join_on_eq(e: &FilterExpr) -> (r: Result<JoinKey, ExecError>)
    ensures
        match join_key_spec(*e) {
            Ok((lq, lc, rq, rc)) => r matches Ok(k) && k.left_qualifier@ == lq && k.left_col@ == lc
                && k.right_qualifier@ == rq && k.right_col@ == rc,
            Err(m) => r matches Err(ExecError::Message(x)) && x@ == m,
        },
{
    match &e.kind {
        ExprKind::BinaryOp { left, op: BinaryOp::Eq, right } => {
            let (left_qualifier, left_col) = match qualified_column(left) {
                Ok(p) => p,
                Err(x) => {
                    return Err(x);
                },
            };
            let (right_qualifier, right_col) = match qualified_column(right) {
                Ok(p) => p,
                Err(x) => {
                    return Err(x);
                },
            };
            Ok(JoinKey { left_qualifier, left_col, right_qualifier, right_col })
        },
        _ => Err(ExecError::Message(owned("JOIN ON requires equality"))),
    }
}

/// Whether `row` is some left row followed by some right row with an equal key cell.
pub open spec fn source_pair(lefts: Seq<Seq<Seq<char>>>, rights: Seq<Seq<Seq<char>>>, li: int, ri: int, row: Seq<Seq<char>>) -> bool {
    exists|i: int, j: int|
        #![trigger lefts[i], rights[j]]
        0 <= i < lefts.len() && 0 <= j < rights.len() && cell_at(lefts[i], li) == cell_at(rights[j], ri)
            && joined_as(row, lefts[i], rights[j])
}

/// Whether `row` is the left row followed by the right row.
pub open spec fn joined_as(row: Seq<Seq<char>>, lr: Seq<Seq<char>>, rr: Seq<Seq<char>>) -> bool {
    row == lr + rr
}

/// How many rows of `rights` have the key cell `key` at column `ri`.
pub open spec fn agreeing_count(key: Option<Seq<char>>, rights: Seq<Seq<Seq<char>>>, ri: int) -> nat
    decreases rights.len(),
{
    if rights.len() == 0 {
        0
    } else {
        agreeing_count(key, rights.drop_last(), ri) + if cell_at(rights.last(), ri) == key {
            1nat
        } else {
            0nat
        }
    }
}

/// How many (left row, right row) pairs have equal key cells.
pub open spec fn agreeing_pairs(lefts: Seq<Seq<Seq<char>>>, rights: Seq<Seq<Seq<char>>>, li: int, ri: int) -> nat
    decreases lefts.len(),
{
    if lefts.len() == 0 {
        0
    } else {
        agreeing_pairs(lefts.drop_last(), rights, li, ri) + agreeing_count(cell_at(lefts.last(), li), rights, ri)
    }
}

proof fn lemma_left_matches_facts(lr: Seq<Seq<char>>, rights: Seq<Seq<Seq<char>>>, li: int, ri: int)
    ensures
        left_matches(lr, rights, li, ri).len() == agreeing_count(cell_at(lr, li), rights, ri),
        forall|j: int|
            0 <= j < rights.len() && cell_at(lr, li) == cell_at(#[trigger] rights[j], ri) ==> exists|k: int|
                0 <= k < left_matches(lr, rights, li, ri).len() && joined_as(left_matches(lr, rights, li, ri)[k], lr, rights[j]),
    decreases rights.len(),
{
    if rights.len() > 0 {
        let d = rights.drop_last();
        lemma_left_matches_facts(lr, d, li, ri);
        let a = left_matches(lr, d, li, ri);
        let m = left_matches(lr, rights, li, ri);
        assert forall|j: int|
            0 <= j < rights.len() && cell_at(lr, li) == cell_at(#[trigger] rights[j], ri) implies exists|k: int|
                0 <= k < m.len() && joined_as(m[k], lr, rights[j]) by {
            if j < d.len() {
                assert(d[j] == rights[j]);
                let k = choose|k: int| 0 <= k < a.len() && joined_as(a[k], lr, d[j]);
                assert(m[k] == a[k]);
            } else {
                assert(rights[j] == rights.last());
                assert(m[a.len() as int] == lr + rights.last());
            }
        }
    }
}

/// Row `k` of the matches of `lr` comes from an agreeing right row: its index.
proof fn lemma_left_match_source(lr: Seq<Seq<char>>, rights: Seq<Seq<Seq<char>>>, li: int, ri: int, k: int) -> (j: int)
    requires
        0 <= k < left_matches(lr, rights, li, ri).len(),
    ensures
        0 <= j < rights.len(),
        cell_at(lr, li) == cell_at(rights[j], ri),
        joined_as(left_matches(lr, rights, li, ri)[k], lr, rights[j]),
    decreases rights.len(),
{
    let d = rights.drop_last();
    let a = left_matches(lr, d, li, ri);
    let m = left_matches(lr, rights, li, ri);
    if k < a.len() {
        assert(m[k] == a[k]);
        let j = lemma_left_match_source(lr, d, li, ri, k);
        assert(d[j] == rights[j]);
        j
    } else {
        assert(m[k] == lr + rights.last());
        rights.len() - 1
    }
}

/// Row `k` of a left-driven inner join comes from an agreeing pair: its indexes.
proof fn lemma_inner_source(lefts: Seq<Seq<Seq<char>>>, rights: Seq<Seq<Seq<char>>>, li: int, ri: int, width: nat, k: int) -> (p: (int, int))
    requires
        0 <= k < left_driven(lefts, rights, li, ri, width, false).len(),
    ensures
        0 <= p.0 < lefts.len(),
        0 <= p.1 < rights.len(),
        cell_at(lefts[p.0], li) == cell_at(rights[p.1], ri),
        joined_as(left_driven(lefts, rights, li, ri, width, false)[k], lefts[p.0], rights[p.1]),
    decreases lefts.len(),
{
    let d = lefts.drop_last();
    let lr = lefts.last();
    let a = left_driven(d, rights, li, ri, width, false);
    let m = left_matches(lr, rights, li, ri);
    let out = left_driven(lefts, rights, li, ri, width, false);
    assert(outer_or(m, lr + pad(width), false) == m);
    assert(out == a + m);
    if k < a.len() {
        assert(out[k] == a[k]);
        let (i, j) = lemma_inner_source(d, rights, li, ri, width, k);
        assert(d[i] == lefts[i]);
        (i, j)
    } else {
        assert(out[k] == m[k - a.len()]);
        let j = lemma_left_match_source(lr, rights, li, ri, k - a.len());
        assert(lefts[lefts.len() - 1] == lr);
        (lefts.len() - 1, j)
    }
}

/// An inner join pairs every left row with every right row whose key cell equals its own, and
/// with nothing else: each output row is such a pair, each such pair is in the output, and
/// there are exactly as many output rows as such pairs.
pub proof fn lemma_inner_join_pairs(lefts: Seq<Seq<Seq<char>>>, rights: Seq<Seq<Seq<char>>>, li: int, ri: int, width: nat)
    ensures
        left_driven(lefts, rights, li, ri, width, false).len() == agreeing_pairs(lefts, rights, li, ri),
        forall|i: int, j: int|
            0 <= i < lefts.len() && 0 <= j < rights.len() && cell_at(#[trigger] lefts[i], li) == cell_at(
                #[trigger] rights[j],
                ri,
            ) ==> exists|k: int|
                0 <= k < left_driven(lefts, rights, li, ri, width, false).len() && joined_as(
                    left_driven(lefts, rights, li, ri, width, false)[k],
                    lefts[i],
                    rights[j],
                ),
        forall|k: int|
            0 <= k < left_driven(lefts, rights, li, ri, width, false).len() ==> #[trigger] source_pair(
                lefts,
                rights,
                li,
                ri,
                left_driven(lefts, rights, li, ri, width, false)[k],
            ),
    decreases lefts.len(),
{
    if lefts.len() > 0 {
        let d = lefts.drop_last();
        let lr = lefts.last();
        lemma_inner_join_pairs(d, rights, li, ri, width);
        lemma_left_matches_facts(lr, rights, li, ri);
        let a = left_driven(d, rights, li, ri, width, false);
        let m = left_matches(lr, rights, li, ri);
        let out = left_driven(lefts, rights, li, ri, width, false);
        assert(outer_or(m, lr + pad(width), false) == m);
        assert(out == a + m);
        assert forall|i: int, j: int|
            0 <= i < lefts.len() && 0 <= j < rights.len() && cell_at(#[trigger] lefts[i], li) == cell_at(
                #[trigger] rights[j],
                ri,
            ) implies exists|k: int| 0 <= k < out.len() && joined_as(out[k], lefts[i], rights[j]) by {
            if i < d.len() {
                assert(d[i] == lefts[i]);
                let k = choose|k: int| 0 <= k < a.len() && joined_as(a[k], d[i], rights[j]);
                assert(out[k] == a[k]);
            } else {
                assert(lefts[i] == lr);
                let k = choose|k: int| 0 <= k < m.len() && joined_as(m[k], lr, rights[j]);
                assert(out[a.len() + k] == m[k]);
            }
        }
        assert forall|k: int| 0 <= k < out.len() implies #[trigger] source_pair(lefts, rights, li, ri, out[k]) by {
            let (i, j) = lemma_inner_source(lefts, rights, li, ri, width, k);
            assert(cell_at(lefts[i], li) == cell_at(rights[j], ri) && joined_as(out[k], lefts[i], rights[j]));
        }
    }
}

/// How many rows of `lefts` have the key cell `key` at column `li`.
pub open spec fn agreeing_left_count(key: Option<Seq<char>>, lefts: Seq<Seq<Seq<char>>>, li: int) -> nat
    decreases lefts.len(),
{
    if lefts.len() == 0 {
        0
    } else {
        agreeing_left_count(key, lefts.drop_last(), li) + if cell_at(lefts.last(), li) == key {
            1nat
        } else {
            0nat
        }
    }
}

/// The row count of a left join: for each left row its agreeing right rows, or one row when
/// there are none.
pub open spec fn left_join_count(lefts: Seq<Seq<Seq<char>>>, rights: Seq<Seq<Seq<char>>>, li: int, ri: int) -> nat
    decreases lefts.len(),
{
    if lefts.len() == 0 {
        0
    } else {
        let c = agreeing_count(cell_at(lefts.last(), li), rights, ri);
        left_join_count(lefts.drop_last(), rights, li, ri) + if c == 0 {
            1nat
        } else {
            c
        }
    }
}

/// The row count of a right join: for each right row its agreeing left rows, or one row when
/// there are none.
pub open spec fn right_join_count(lefts: Seq<Seq<Seq<char>>>, rights: Seq<Seq<Seq<char>>>, li: int, ri: int) -> nat
    decreases rights.len(),
{
    if rights.len() == 0 {
        0
    } else {
        let c = agreeing_left_count(cell_at(rights.last(), ri), lefts, li);
        right_join_count(lefts, rights.drop_last(), li, ri) + if c == 0 {
            1nat
        } else {
            c
        }
    }
}

proof fn lemma_right_matches_facts(rr: Seq<Seq<char>>, lefts: Seq<Seq<Seq<char>>>, li: int, ri: int)
    ensures
        right_matches(rr, lefts, li, ri).len() == agreeing_left_count(cell_at(rr, ri), lefts, li),
        forall|i: int|
            0 <= i < lefts.len() && cell_at(#[trigger] lefts[i], li) == cell_at(rr, ri) ==> exists|k: int|
                0 <= k < right_matches(rr, lefts, li, ri).len() && joined_as(right_matches(rr, lefts, li, ri)[k], lefts[i], rr),
    decreases lefts.len(),
{
    if lefts.len() > 0 {
        let d = lefts.drop_last();
        lemma_right_matches_facts(rr, d, li, ri);
        let a = right_matches(rr, d, li, ri);
        let m = right_matches(rr, lefts, li, ri);
        assert forall|i: int|
            0 <= i < lefts.len() && cell_at(#[trigger] lefts[i], li) == cell_at(rr, ri) implies exists|k: int|
                0 <= k < m.len() && joined_as(m[k], lefts[i], rr) by {
            if i < d.len() {
                assert(d[i] == lefts[i]);
                let k = choose|k: int| 0 <= k < a.len() && joined_as(a[k], d[i], rr);
                assert(m[k] == a[k]);
            } else {
                assert(lefts[i] == lefts.last());
                assert(m[a.len() as int] == lefts.last() + rr);
            }
        }
    }
}

/// A left join keeps every left row: each left row is joined to every right row whose key
/// cell equals its own, a left row with no such right row is emitted once padded with empty
/// cells for the right columns, and the row count is the sum, over the left rows, of their
/// number of agreeing right rows, or one where there is none.
pub proof fn lemma_left_join_rows(lefts: Seq<Seq<Seq<char>>>, rights: Seq<Seq<Seq<char>>>, li: int, ri: int, width: nat)
    ensures
        left_driven(lefts, rights, li, ri, width, true).len() == left_join_count(lefts, rights, li, ri),
        forall|i: int, j: int|
            0 <= i < lefts.len() && 0 <= j < rights.len() && cell_at(#[trigger] lefts[i], li) == cell_at(
                #[trigger] rights[j],
                ri,
            ) ==> exists|k: int|
                0 <= k < left_driven(lefts, rights, li, ri, width, true).len() && joined_as(
                    left_driven(lefts, rights, li, ri, width, true)[k],
                    lefts[i],
                    rights[j],
                ),
        forall|i: int|
            0 <= i < lefts.len() && agreeing_count(cell_at(#[trigger] lefts[i], li), rights, ri) == 0 ==> exists|k: int|
                0 <= k < left_driven(lefts, rights, li, ri, width, true).len() && joined_as(
                    left_driven(lefts, rights, li, ri, width, true)[k],
                    lefts[i],
                    pad(width),
                ),
    decreases lefts.len(),
{
    if lefts.len() > 0 {
        let d = lefts.drop_last();
        let lr = lefts.last();
        lemma_left_join_rows(d, rights, li, ri, width);
        lemma_left_matches_facts(lr, rights, li, ri);
        let a = left_driven(d, rights, li, ri, width, true);
        let m = left_matches(lr, rights, li, ri);
        let tail = outer_or(m, lr + pad(width), true);
        let out = left_driven(lefts, rights, li, ri, width, true);
        assert(out == a + tail);
        assert forall|i: int, j: int|
            0 <= i < lefts.len() && 0 <= j < rights.len() && cell_at(#[trigger] lefts[i], li) == cell_at(
                #[trigger] rights[j],
                ri,
            ) implies exists|k: int| 0 <= k < out.len() && joined_as(out[k], lefts[i], rights[j]) by {
            if i < d.len() {
                assert(d[i] == lefts[i]);
                let k = choose|k: int| 0 <= k < a.len() && joined_as(a[k], d[i], rights[j]);
                assert(out[k] == a[k]);
            } else {
                assert(lefts[i] == lr);
                let k = choose|k: int| 0 <= k < m.len() && joined_as(m[k], lr, rights[j]);
                assert(tail == m);
                assert(out[a.len() + k] == m[k]);
            }
        }
        assert forall|i: int|
            0 <= i < lefts.len() && agreeing_count(cell_at(#[trigger] lefts[i], li), rights, ri) == 0 implies exists|k: int|
                0 <= k < out.len() && joined_as(out[k], lefts[i], pad(width)) by {
            if i < d.len() {
                assert(d[i] == lefts[i]);
                let k = choose|k: int| 0 <= k < a.len() && joined_as(a[k], d[i], pad(width));
                assert(out[k] == a[k]);
            } else {
                assert(lefts[i] == lr);
                assert(m.len() == 0);
                assert(tail == seq![lr + pad(width)]);
                assert(out[a.len() as int] == lr + pad(width));
            }
        }
    }
}

/// A right join keeps every right row: each right row is joined to every left row whose key
/// cell equals its own, a right row with no such left row is emitted once after empty cells
/// for the left columns, and the row count is the sum, over the right rows, of their number
/// of agreeing left rows, or one where there is none.
pub proof fn lemma_right_join_rows(lefts: Seq<Seq<Seq<char>>>, rights: Seq<Seq<Seq<char>>>, li: int, ri: int, width: nat)
    ensures
        right_driven(lefts, rights, li, ri, width).len() == right_join_count(lefts, rights, li, ri),
        forall|i: int, j: int|
            0 <= i < lefts.len() && 0 <= j < rights.len() && cell_at(#[trigger] lefts[i], li) == cell_at(
                #[trigger] rights[j],
                ri,
            ) ==> exists|k: int|
                0 <= k < right_driven(lefts, rights, li, ri, width).len() && joined_as(
                    right_driven(lefts, rights, li, ri, width)[k],
                    lefts[i],
                    rights[j],
                ),
        forall|j: int|
            0 <= j < rights.len() && agreeing_left_count(cell_at(#[trigger] rights[j], ri), lefts, li) == 0 ==> exists|k: int|
                0 <= k < right_driven(lefts, rights, li, ri, width).len() && joined_as(
                    right_driven(lefts, rights, li, ri, width)[k],
                    pad(width),
                    rights[j],
                ),
    decreases rights.len(),
{
    if rights.len() > 0 {
        let d = rights.drop_last();
        let rr = rights.last();
        lemma_right_join_rows(lefts, d, li, ri, width);
        lemma_right_matches_facts(rr, lefts, li, ri);
        let a = right_driven(lefts, d, li, ri, width);
        let m = right_matches(rr, lefts, li, ri);
        let tail = outer_or(m, pad(width) + rr, true);
        let out = right_driven(lefts, rights, li, ri, width);
        assert(out == a + tail);
        assert forall|i: int, j: int|
            0 <= i < lefts.len() && 0 <= j < rights.len() && cell_at(#[trigger] lefts[i], li) == cell_at(
                #[trigger] rights[j],
                ri,
            ) implies exists|k: int| 0 <= k < out.len() && joined_as(out[k], lefts[i], rights[j]) by {
            if j < d.len() {
                assert(d[j] == rights[j]);
                let k = choose|k: int| 0 <= k < a.len() && joined_as(a[k], lefts[i], d[j]);
                assert(out[k] == a[k]);
            } else {
                assert(rights[j] == rr);
                let k = choose|k: int| 0 <= k < m.len() && joined_as(m[k], lefts[i], rr);
                assert(tail == m);
                assert(out[a.len() + k] == m[k]);
            }
        }
        assert forall|j: int|
            0 <= j < rights.len() && agreeing_left_count(cell_at(#[trigger] rights[j], ri), lefts, li) == 0 implies exists|k: int|
                0 <= k < out.len() && joined_as(out[k], pad(width), rights[j]) by {
            if j < d.len() {
                assert(d[j] == rights[j]);
                let k = choose|k: int| 0 <= k < a.len() && joined_as(a[k], pad(width), d[j]);
                assert(out[k] == a[k]);
            } else {
                assert(rights[j] == rr);
                assert(m.len() == 0);
                assert(tail == seq![pad(width) + rr]);
                assert(out[a.len() as int] == pad(width) + rr);
            }
        }
    }
}

/// The joined rows of one left row are, in the order of `rights`, that row followed by each
/// right row whose key cell equals its own; right rows that disagree give nothing.
pub proof fn lemma_left_matches_in_order(lr: Seq<Seq<char>>, rights: Seq<Seq<Seq<char>>>, li: int, ri: int)
    ensures
        left_matches(lr, rights, li, ri) == rights.filter_map(
            (|rr: Seq<Seq<char>>| if cell_at(rr, ri) == cell_at(lr, li) { Some(lr + rr) } else { None }),
        ),
    decreases rights.len(),
{
    if rights.len() > 0 {
        lemma_left_matches_in_order(lr, rights.drop_last(), li, ri);
    }
}

/// Joining a run of left rows gives the joined rows of its first part followed by those of
/// its second part: the output keeps the order of the left rows.
pub proof fn lemma_left_driven_concat(
    a: Seq<Seq<Seq<char>>>,
    b: Seq<Seq<Seq<char>>>,
    rights: Seq<Seq<Seq<char>>>,
    li: int,
    ri: int,
    width: nat,
    outer: bool,
)
    ensures
        left_driven(a + b, rights, li, ri, width, outer) == left_driven(a, rights, li, ri, width, outer) + left_driven(
            b,
            rights,
            li,
            ri,
            width,
            outer,
        ),
    decreases b.len(),
{
    if b.len() == 0 {
        assert(a + b =~= a);
    } else {
        lemma_left_driven_concat(a, b.drop_last(), rights, li, ri, width, outer);
        assert((a + b).drop_last() =~= a + b.drop_last());
        assert((a + b).last() == b.last());
    }
}

/// For a right join, the joined rows of one right row are, in the order of `lefts`, each left
/// row whose key cell equals its own followed by that right row.
pub proof fn lemma_right_matches_in_order(rr: Seq<Seq<char>>, lefts: Seq<Seq<Seq<char>>>, li: int, ri: int)
    ensures
        right_matches(rr, lefts, li, ri) == lefts.filter_map(
            (|lr: Seq<Seq<char>>| if cell_at(lr, li) == cell_at(rr, ri) { Some(lr + rr) } else { None }),
        ),
    decreases lefts.len(),
{
    if lefts.len() > 0 {
        lemma_right_matches_in_order(rr, lefts.drop_last(), li, ri);
    }
}

/// A right join of a run of right rows gives the rows of its first part followed by those of
/// its second part: the output keeps the order of the right rows.
pub proof fn lemma_right_driven_concat(
    lefts: Seq<Seq<Seq<char>>>,
    a: Seq<Seq<Seq<char>>>,
    b: Seq<Seq<Seq<char>>>,
    li: int,
    ri: int,
    width: nat,
)
    ensures
        right_driven(lefts, a + b, li, ri, width) == right_driven(lefts, a, li, ri, width) + right_driven(
            lefts,
            b,
            li,
            ri,
            width,
        ),
    decreases b.len(),
{
    if b.len() == 0 {
        assert(a + b =~= a);
    } else {
        lemma_right_driven_concat(lefts, a, b.drop_last(), li, ri, width);
        assert((a + b).drop_last() =~= a + b.drop_last());
        assert((a + b).last() == b.last());
    }
}
} // verus!
