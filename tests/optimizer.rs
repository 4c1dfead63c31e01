use robber::optimizer::{filter_out_stmts, is_debug_assert, optimize_lvalue, retain_attribute, Expr, StmtShape};

fn op(k: u64) -> Box<Expr> {
    Box::new(Expr::Opaque(k))
}

#[test]
fn single_index_becomes_unchecked_in_unsafe() {
    // a[1] = 3;
    let lhs = Expr::Index(op(0), op(1));
    let expected = Expr::DerefUnsafe(Box::new(Expr::Unchecked(op(0), op(1))));
    assert_eq!(optimize_lvalue(lhs), expected);
}

#[test]
fn nested_index_becomes_chained_unchecked() {
    // data[0][idx] += 1;
    let lhs = Expr::Index(Box::new(Expr::Index(op(0), op(1))), op(2));
    let expected = Expr::DerefUnsafe(Box::new(Expr::Unchecked(
        Box::new(Expr::Unchecked(op(0), op(1))),
        op(2),
    )));
    assert_eq!(optimize_lvalue(lhs), expected);
}

#[test]
fn non_index_target_unchanged() {
    assert_eq!(optimize_lvalue(Expr::Opaque(7)), Expr::Opaque(7));
}

#[test]
fn debug_assertions_removed_from_block() {
    // debug_assert!(..); let mut a = ..; a[1] = 3; let x = a[1]; assert_eq!(a[1], 3); debug_assert_eq!(..);
    let stmts = vec![
        StmtShape::MacroCall("debug_assert".to_string()),
        StmtShape::Other,
        StmtShape::Other,
        StmtShape::Other,
        StmtShape::MacroCall("assert_eq".to_string()),
        StmtShape::MacroCall("debug_assert_eq".to_string()),
        StmtShape::MacroCall("println".to_string()),
    ];
    assert_eq!(filter_out_stmts(&stmts), vec![false, true, true, true, true, false, true]);
}

#[test]
fn debug_assert_names() {
    assert!(is_debug_assert(&"debug_assert".to_string()));
    assert!(is_debug_assert(&"debug_assert_eq".to_string()));
    assert!(!is_debug_assert(&"debug_assert_ne".to_string()));
    assert!(!is_debug_assert(&"assert".to_string()));
}

#[test]
fn doc_and_lint_attributes_dropped() {
    assert!(!retain_attribute(&"doc".to_string()));
    assert!(!retain_attribute(&"allow".to_string()));
    assert!(retain_attribute(&"inline".to_string()));
    assert!(retain_attribute(&"derive".to_string()));
}
