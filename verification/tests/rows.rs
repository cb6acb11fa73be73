use rusql::results::{ExecError, QueryResult};
use rusql::row_ops::{
    apply_limit, apply_order_by, apply_pagination, dedupe_rows, extract_limit, extract_offset,
    finalize_select_rows, finish_rows_query, resolve_order_by, OrderByItem, SortKey,
};
use rusql::where_filter::{ExprKind, FilterExpr};

fn row(cells: &[&str]) -> Vec<String> {
    cells.iter().map(|s| s.to_string()).collect()
}
fn rows(v: &[&[&str]]) -> Vec<Vec<String>> {
    v.iter().map(|r| row(r)).collect()
}
fn num(n: &str) -> FilterExpr {
    FilterExpr { kind: ExprKind::Number(n.into()), text: n.into() }
}
fn col(n: &str) -> FilterExpr {
    FilterExpr { kind: ExprKind::Identifier(n.into()), text: n.into() }
}

#[test]
fn distinct_keeps_first_of_each() {
    let r = rows(&[&["1", "a"], &["2", "b"], &["1", "a"], &["1", "b"]]);
    assert_eq!(dedupe_rows(r), rows(&[&["1", "a"], &["2", "b"], &["1", "b"]]));
    assert!(dedupe_rows(vec![]).is_empty());
}

#[test]
fn limit_and_offset() {
    let r = rows(&[&["1"], &["2"], &["3"], &["4"]]);
    assert_eq!(apply_limit(r.clone(), Some(2)), rows(&[&["1"], &["2"]]));
    assert_eq!(apply_limit(r.clone(), Some(10)), r);
    assert_eq!(apply_limit(r.clone(), None), r);
    assert!(apply_limit(r.clone(), Some(0)).is_empty());
    assert_eq!(apply_pagination(r.clone(), Some(1), Some(2)), rows(&[&["2"], &["3"]]));
    assert_eq!(apply_pagination(r.clone(), Some(3), None), rows(&[&["4"]]));
    assert!(apply_pagination(r.clone(), Some(9), Some(2)).is_empty());
    assert_eq!(apply_pagination(r.clone(), None, Some(1)), rows(&[&["1"]]));
}

#[test]
fn limit_clauses() {
    assert_eq!(extract_limit(None).unwrap(), None);
    assert_eq!(extract_limit(Some(&num("5"))).unwrap(), Some(5));
    assert_eq!(extract_offset(Some(&num("+3"))).unwrap(), Some(3));
    match extract_limit(Some(&num("-1"))) {
        Err(ExecError::Message(m)) => assert_eq!(m, "invalid LIMIT value"),
        other => panic!("expected an error, got {other:?}"),
    }
    match extract_offset(Some(&num("99999999999999999999999"))) {
        Err(ExecError::Message(m)) => assert_eq!(m, "invalid OFFSET value"),
        other => panic!("expected an error, got {other:?}"),
    }
    match extract_limit(Some(&col("n"))) {
        Err(ExecError::Message(m)) => assert_eq!(m, "unsupported LIMIT: n"),
        other => panic!("expected an error, got {other:?}"),
    }
}

#[test]
fn order_by_is_stable_and_directional() {
    let r = rows(&[&["b", "1"], &["a", "2"], &["b", "0"], &["a", "1"], &["c"]]);
    let asc = vec![SortKey { col_idx: 0, ascending: true }];
    assert_eq!(
        apply_order_by(r.clone(), &asc),
        rows(&[&["a", "2"], &["a", "1"], &["b", "1"], &["b", "0"], &["c"]])
    );
    let desc_then_asc = vec![SortKey { col_idx: 0, ascending: false }, SortKey { col_idx: 1, ascending: true }];
    assert_eq!(
        apply_order_by(r.clone(), &desc_then_asc),
        rows(&[&["c"], &["b", "0"], &["b", "1"], &["a", "1"], &["a", "2"]])
    );
    // a missing cell sorts as empty text, first when ascending
    let by_second = vec![SortKey { col_idx: 1, ascending: true }];
    assert_eq!(apply_order_by(r.clone(), &by_second)[0], row(&["c"]));
    assert_eq!(apply_order_by(r.clone(), &vec![]), r);
    // code-point order, not numeric
    let n = rows(&[&["10"], &["9"], &["100"]]);
    assert_eq!(apply_order_by(n, &asc), rows(&[&["10"], &["100"], &["9"]]));
}

#[test]
fn order_by_items_resolve_to_keys() {
    let columns = row(&["id", "Name"]);
    let items = vec![
        OrderByItem { expr: col("name"), asc: Some(false), nulls_first: None },
        OrderByItem {
            expr: FilterExpr { kind: ExprKind::CompoundIdentifier(vec!["t".into(), "ID".into()]), text: "t.ID".into() },
            asc: None,
            nulls_first: None,
        },
    ];
    assert_eq!(
        resolve_order_by(Some(&items), &columns).unwrap(),
        vec![SortKey { col_idx: 1, ascending: false }, SortKey { col_idx: 0, ascending: true }]
    );
    assert!(resolve_order_by(None, &columns).unwrap().is_empty());
    let bad = vec![OrderByItem { expr: col("zz"), asc: None, nulls_first: None }];
    match resolve_order_by(Some(&bad), &columns) {
        Err(ExecError::Message(m)) => assert_eq!(m, "unknown ORDER BY column 'zz'"),
        other => panic!("expected an error, got {other:?}"),
    }
    let nulls = vec![OrderByItem { expr: col("id"), asc: None, nulls_first: Some(true) }];
    match resolve_order_by(Some(&nulls), &columns) {
        Err(ExecError::Message(m)) => assert_eq!(m, "NULLS FIRST/LAST in ORDER BY not supported"),
        other => panic!("expected an error, got {other:?}"),
    }
    let expr = vec![OrderByItem { expr: num("1"), asc: None, nulls_first: None }];
    match resolve_order_by(Some(&expr), &columns) {
        Err(ExecError::Message(m)) => assert_eq!(m, "unsupported SELECT expression: 1"),
        other => panic!("expected an error, got {other:?}"),
    }
}

#[test]
fn finishing_a_result() {
    let result = QueryResult::Rows { columns: row(&["id"]), rows: rows(&[&["3"], &["1"], &["2"]]) };
    let items = vec![OrderByItem { expr: col("id"), asc: None, nulls_first: None }];
    match finish_rows_query(result, Some(&items), Some(1), Some(1)).unwrap() {
        QueryResult::Rows { columns, rows: out } => {
            assert_eq!(columns, row(&["id"]));
            assert_eq!(out, rows(&[&["2"]]));
        }
        other => panic!("expected rows, got {other:?}"),
    }
    let done = QueryResult::Affected { rows_affected: 4 };
    assert_eq!(finish_rows_query(done, Some(&items), None, None).unwrap(), QueryResult::Affected { rows_affected: 4 });
}

#[test]
fn select_output_columns() {
    let (c, r) = finalize_select_rows(vec![], None, vec![], rows(&[&["a", "b"]])).unwrap();
    assert_eq!(c, row(&["col1", "col2"]));
    assert_eq!(r, rows(&[&["a", "b"]]));
    let (c, r) = finalize_select_rows(vec![], Some(vec![1]), row(&["x", "y"]), rows(&[&["a", "b"]])).unwrap();
    assert_eq!(c, row(&["x", "y"]));
    assert_eq!(r, rows(&[&["b"]]));
    let (c, _) = finalize_select_rows(row(&["n"]), None, row(&["x"]), vec![]).unwrap();
    assert_eq!(c, row(&["n"]));
    let (c, r) = finalize_select_rows(vec![], None, vec![], vec![]).unwrap();
    assert!(c.is_empty() && r.is_empty());
}
