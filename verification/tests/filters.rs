use rusql::collation::Collation;
use rusql::where_filter::{
    between_predicate_from_filter, eq_predicate_from_filter, eq_prefix_from_filter,
    extract_eq_predicate, filter_rows, parse_where_filter, row_matches_predicate, BinaryOp,
    CompareOp, ExprKind, FilterExpr, LiteralPredicate, Predicate, WhereFilter,
};
use rusql::results::ExecError;

fn ex(kind: ExprKind, text: &str) -> FilterExpr {
    FilterExpr { kind, text: text.to_string() }
}
fn col(name: &str) -> FilterExpr {
    ex(ExprKind::Identifier(name.to_string()), name)
}
fn num(n: &str) -> FilterExpr {
    ex(ExprKind::Number(n.to_string()), n)
}
fn s(t: &str) -> FilterExpr {
    ex(ExprKind::SingleQuoted(t.to_string()), t)
}
fn bin(l: FilterExpr, op: BinaryOp, r: FilterExpr) -> FilterExpr {
    ex(ExprKind::BinaryOp { left: Box::new(l), op, right: Box::new(r) }, "binary")
}

/// `SELECT * FROM t WHERE …` over the rows (1, alice), (2, bob), (3, carol).
fn filter_where(e: FilterExpr) -> Vec<Vec<String>> {
    let filter = parse_where_filter(Some(&e)).unwrap().unwrap();
    let columns = vec!["id".to_string(), "name".to_string()];
    let rows = vec![
        vec!["1".to_string(), "alice".to_string()],
        vec!["2".to_string(), "bob".to_string()],
        vec!["3".to_string(), "carol".to_string()],
    ];
    filter_rows(rows, &columns, &filter, &[]).unwrap()
}

#[test]
fn collation_case_insensitive_eq() {
    let out = filter_where(bin(col("name"), BinaryOp::Eq, s("ALICE")));
    assert_eq!(out.len(), 1);
    assert_eq!(out[0][1], "alice");
}

#[test]
fn or_predicate() {
    let out = filter_where(bin(
        bin(col("id"), BinaryOp::Eq, num("1")),
        BinaryOp::Or,
        bin(col("id"), BinaryOp::Eq, num("3")),
    ));
    assert_eq!(out.len(), 2);
    assert_eq!(out[0][0], "1");
    assert_eq!(out[1][0], "3");
}

#[test]
fn and_or_precedence() {
    // id = 1 OR (id = 2 AND name = 'bob'), as the parser groups it
    let out = filter_where(bin(
        bin(col("id"), BinaryOp::Eq, num("1")),
        BinaryOp::Or,
        bin(bin(col("id"), BinaryOp::Eq, num("2")), BinaryOp::And, bin(col("name"), BinaryOp::Eq, s("bob"))),
    ));
    assert_eq!(out.len(), 2);
}

#[test]
fn like_prefix_wildcard() {
    let e = ex(ExprKind::Like { negated: false, expr: Box::new(col("name")), pattern: Box::new(s("a%")) }, "like");
    let out = filter_where(e);
    assert_eq!(out.len(), 1);
    assert_eq!(out[0][1], "alice");
}

#[test]
fn between_inclusive() {
    let e = ex(
        ExprKind::Between { expr: Box::new(col("id")), negated: false, low: Box::new(num("2")), high: Box::new(num("3")) },
        "between",
    );
    let out = filter_where(e);
    assert_eq!(out.len(), 2);
    assert_eq!(out[0][0], "2");
    assert_eq!(out[1][0], "3");
}

#[test]
fn in_list() {
    let e = ex(ExprKind::InList { expr: Box::new(col("id")), list: vec![num("1"), num("3")], negated: false }, "in");
    assert_eq!(filter_where(e).len(), 2);
}

#[test]
fn not_in_list() {
    let e = ex(ExprKind::InList { expr: Box::new(col("id")), list: vec![num("1"), num("3")], negated: true }, "in");
    let out = filter_where(e);
    assert_eq!(out.len(), 1);
    assert_eq!(out[0][0], "2");
}

#[test]
fn not_like() {
    let e = ex(ExprKind::Like { negated: true, expr: Box::new(col("name")), pattern: Box::new(s("a%")) }, "like");
    assert_eq!(filter_where(e).len(), 2);
}

#[test]
fn numbers_compare_as_integers_and_text_by_collation() {
    let columns = vec!["v".to_string()];
    let p = |op, value: &str| Predicate::Compare(LiteralPredicate { column: "V".into(), op, value: value.into() });
    let ten = vec!["10".to_string()];
    assert!(row_matches_predicate(&ten, &columns, &p(CompareOp::Gt, "9")));
    assert!(!row_matches_predicate(&ten, &columns, &p(CompareOp::Lt, "9")));
    assert!(row_matches_predicate(&ten, &columns, &p(CompareOp::Eq, "+10")));
    let word = vec!["Café".to_string()];
    assert!(row_matches_predicate(&word, &columns, &p(CompareOp::Eq, "cafe")));
    assert!(row_matches_predicate(&word, &columns, &p(CompareOp::Lt, "cafes")));
    assert!(row_matches_predicate(&word, &columns, &p(CompareOp::GtEq, "CAFE")));
    assert!(!row_matches_predicate(&word, &columns, &p(CompareOp::NotEq, "CAFÉ")));
    // an unknown column never compares
    let other = vec!["x".to_string()];
    assert!(!row_matches_predicate(&word, &other, &p(CompareOp::Eq, "cafe")));
}

#[test]
fn null_tests_and_missing_cells() {
    let columns = vec!["a".to_string(), "b".to_string()];
    let short = vec!["".to_string()];
    assert!(row_matches_predicate(&short, &columns, &Predicate::IsNull { column: "a".into() }));
    assert!(row_matches_predicate(&short, &columns, &Predicate::IsNull { column: "b".into() }));
    assert!(row_matches_predicate(&short, &columns, &Predicate::IsNull { column: "zz".into() }));
    assert!(!row_matches_predicate(&short, &columns, &Predicate::IsNotNull { column: "b".into() }));
    let full = vec!["1".to_string(), "x".to_string()];
    assert!(row_matches_predicate(&full, &columns, &Predicate::IsNotNull { column: "B".into() }));
    assert!(!row_matches_predicate(&full, &columns, &Predicate::InSubquery { column: "a".into(), negated: true }));
    assert!(!row_matches_predicate(&full, &columns, &Predicate::Exists { negated: false }));
}

#[test]
fn like_forms() {
    let columns = vec!["n".to_string()];
    let like = |cell: &str, pat: &str| {
        row_matches_predicate(
            &vec![cell.to_string()],
            &columns,
            &Predicate::Like { column: "n".into(), pattern: pat.into(), negated: false },
        )
    };
    assert!(like("anything", "%"));
    assert!(like("banana", "%nan%"));
    assert!(!like("banana", "%%"));
    assert!(like("banana", "%ana"));
    assert!(!like("banana", "%anab"));
    assert!(like("Banana", "banana"));
    assert!(!like("banana", "b_nana"));
    assert!(like("", "%"));
}

#[test]
fn between_text_and_reversed_bounds() {
    let columns = vec!["n".to_string()];
    let between = |cell: &str, lo: &str, hi: &str| {
        row_matches_predicate(
            &vec![cell.to_string()],
            &columns,
            &Predicate::Between { column: "n".into(), low: lo.into(), high: hi.into(), negated: false },
        )
    };
    assert!(between("b", "a", "c"));
    assert!(between("B", "b", "c"));
    assert!(!between("b", "c", "a"));
    assert!(between("5", "1", "10"));
    assert!(!between("5", "10", "1"));
}

#[test]
fn collations_per_column() {
    let columns = vec!["n".to_string()];
    let rows = vec![vec!["straße".to_string()], vec!["strasse".to_string()]];
    let f = WhereFilter::Pred(Predicate::Compare(LiteralPredicate {
        column: "n".into(),
        op: CompareOp::Eq,
        value: "strasse".into(),
    }));
    let unicode = filter_rows(rows.clone(), &columns, &f, &[Collation::Utf8Mb4UnicodeCi]).unwrap();
    assert_eq!(unicode.len(), 2);
    let ai = filter_rows(rows, &columns, &f, &[Collation::Utf8Mb4_0900AiCi]).unwrap();
    assert_eq!(ai, vec![vec!["strasse".to_string()]]);
}

#[test]
fn parse_errors_name_the_expression() {
    let e = ex(ExprKind::Other, "Function(foo)");
    match parse_where_filter(Some(&e)) {
        Err(ExecError::Message(m)) => assert_eq!(m, "unsupported WHERE expression: Function(foo)"),
        other => panic!("expected error, got {other:?}"),
    }
    let e = bin(col("a"), BinaryOp::Other("Plus".into()), num("1"));
    match parse_where_filter(Some(&e)) {
        Err(ExecError::Message(m)) => assert_eq!(m, "unsupported WHERE operator: Plus"),
        other => panic!("expected error, got {other:?}"),
    }
    let e = bin(num("1"), BinaryOp::Eq, col("a"));
    match parse_where_filter(Some(&e)) {
        Err(ExecError::Message(m)) => assert_eq!(m, "unsupported WHERE column: 1"),
        other => panic!("expected error, got {other:?}"),
    }
    let e = bin(col("a"), BinaryOp::Eq, col("b"));
    match parse_where_filter(Some(&e)) {
        Err(ExecError::Message(m)) => assert_eq!(m, "unsupported expr: b"),
        other => panic!("expected error, got {other:?}"),
    }
    let e = ex(ExprKind::IsNull(Box::new(ex(ExprKind::CompoundIdentifier(vec![]), ""))), "x");
    match parse_where_filter(Some(&e)) {
        Err(ExecError::Message(m)) => assert_eq!(m, "empty compound identifier"),
        other => panic!("expected error, got {other:?}"),
    }
    assert!(matches!(parse_where_filter(None), Ok(None)));
}

#[test]
fn eq_extractors() {
    let e = bin(
        ex(ExprKind::CompoundIdentifier(vec!["t".into(), "id".into()]), "t.id"),
        BinaryOp::Eq,
        num("7"),
    );
    assert_eq!(extract_eq_predicate(Some(&e)), Some(("id".to_string(), "7".to_string())));
    let both = bin(bin(col("a"), BinaryOp::Eq, num("1")), BinaryOp::And, bin(col("b"), BinaryOp::Gt, num("2")));
    assert_eq!(extract_eq_predicate(Some(&both)), None);
    let f = parse_where_filter(Some(&both)).unwrap().unwrap();
    assert_eq!(eq_prefix_from_filter(&f), vec![("a".to_string(), "1".to_string())]);
    assert_eq!(eq_predicate_from_filter(&f), None);
    let b = WhereFilter::Pred(Predicate::Between { column: "x".into(), low: "1".into(), high: "5".into(), negated: false });
    assert_eq!(between_predicate_from_filter(&b), Some(("x".to_string(), "1".to_string(), "5".to_string())));
    let nb = WhereFilter::Pred(Predicate::Between { column: "x".into(), low: "1".into(), high: "5".into(), negated: true });
    assert_eq!(between_predicate_from_filter(&nb), None);
}
