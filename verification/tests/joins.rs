use rusql::join::{nested_loop_join, parse_join_on_eq, qualified_column, JoinKey, JoinKind, JoinSide};
use rusql::results::ExecError;
use rusql::where_filter::{BinaryOp, ExprKind, FilterExpr};

fn strs(v: &[&str]) -> Vec<String> {
    v.iter().map(|s| s.to_string()).collect()
}

fn side(table: &str, alias: &str, cols: &[&str]) -> JoinSide {
    JoinSide { table_name: table.into(), alias: alias.into(), columns: strs(cols) }
}

fn key(lq: &str, lc: &str, rq: &str, rc: &str) -> JoinKey {
    JoinKey { left_qualifier: lq.into(), left_col: lc.into(), right_qualifier: rq.into(), right_col: rc.into() }
}

fn compound(parts: &[&str]) -> FilterExpr {
    FilterExpr { kind: ExprKind::CompoundIdentifier(strs(parts)), text: parts.join(".") }
}

#[test]
fn join_inner_orders_items() {
    let orders = side("orders", "orders", &["id", "customer"]);
    let items = side("order_items", "order_items", &["order_id", "sku"]);
    let (cols, rows) = nested_loop_join(
        JoinKind::Inner,
        &orders,
        vec![strs(&["1", "a"])],
        &items,
        vec![strs(&["1", "x"]), strs(&["2", "y"])],
        &key("orders", "id", "order_items", "order_id"),
    )
    .unwrap();
    assert_eq!(cols, strs(&["id", "customer", "order_id", "sku"]));
    assert_eq!(rows, vec![strs(&["1", "a", "1", "x"])]);
}

#[test]
fn join_left_pads_unmatched_left_rows() {
    let a = side("oj_a", "oj_a", &["id", "name"]);
    let b = side("oj_b", "oj_b", &["a_id", "label"]);
    let (_, rows) = nested_loop_join(
        JoinKind::Left,
        &a,
        vec![strs(&["1", "alice"]), strs(&["2", "bob"])],
        &b,
        vec![strs(&["1", "x"])],
        &key("oj_a", "id", "oj_b", "a_id"),
    )
    .unwrap();
    assert_eq!(rows, vec![strs(&["1", "alice", "1", "x"]), strs(&["2", "bob", "", ""])]);
}

#[test]
fn join_right_driven_by_right_rows_and_swapped_qualifiers() {
    let a = side("oj_a", "a", &["id", "name"]);
    let b = side("oj_b", "b", &["a_id", "label"]);
    let (_, rows) = nested_loop_join(
        JoinKind::Right,
        &a,
        vec![strs(&["1", "alice"]), strs(&["1", "ann"])],
        &b,
        vec![strs(&["3", "z"]), strs(&["1", "x"])],
        &key("B", "A_ID", "a", "ID"),
    )
    .unwrap();
    assert_eq!(
        rows,
        vec![strs(&["", "", "3", "z"]), strs(&["1", "alice", "1", "x"]), strs(&["1", "ann", "1", "x"])]
    );
}

#[test]
fn join_errors() {
    let a = side("t1", "t1", &["id"]);
    let b = side("t2", "t2", &["id"]);
    match nested_loop_join(JoinKind::Inner, &a, vec![], &b, vec![], &key("t1", "id", "t3", "id")) {
        Err(ExecError::Message(m)) => assert_eq!(m, "JOIN ON qualifiers do not match FROM tables"),
        other => panic!("unexpected {other:?}"),
    }
    match nested_loop_join(JoinKind::Inner, &a, vec![], &b, vec![], &key("t1", "nope", "t2", "id")) {
        Err(ExecError::Message(m)) => assert_eq!(m, "unknown column 'nope'"),
        other => panic!("unexpected {other:?}"),
    }
}

#[test]
fn join_short_rows_agree_on_missing_cells() {
    let a = side("t1", "t1", &["x", "k"]);
    let b = side("t2", "t2", &["k"]);
    let (_, rows) =
        nested_loop_join(JoinKind::Inner, &a, vec![strs(&["1"])], &b, vec![vec![], strs(&["1"])], &key("t1", "k", "t2", "k"))
            .unwrap();
    assert_eq!(rows, vec![strs(&["1"])]);
}

#[test]
fn join_on_key_parsing() {
    let on = FilterExpr {
        kind: ExprKind::BinaryOp {
            left: Box::new(compound(&["db", "orders", "id"])),
            op: BinaryOp::Eq,
            right: Box::new(FilterExpr { kind: ExprKind::Identifier("order_id".into()), text: "order_id".into() }),
        },
        text: "orders.id = order_id".into(),
    };
    let k = parse_join_on_eq(&on).unwrap();
    assert_eq!(k, key("orders", "id", "", "order_id"));
    let lt = FilterExpr {
        kind: ExprKind::BinaryOp { left: Box::new(compound(&["a", "x"])), op: BinaryOp::Lt, right: Box::new(compound(&["b", "y"])) },
        text: "a.x < b.y".into(),
    };
    match parse_join_on_eq(&lt) {
        Err(ExecError::Message(m)) => assert_eq!(m, "JOIN ON requires equality"),
        other => panic!("unexpected {other:?}"),
    }
    match qualified_column(&FilterExpr { kind: ExprKind::Number("1".into()), text: "1".into() }) {
        Err(ExecError::Message(m)) => assert_eq!(m, "unsupported JOIN column: 1"),
        other => panic!("unexpected {other:?}"),
    }
}
