use whisker_aonyx_rules::prefer_let_else::{Condition, ElseType, Expr, IfExpr, PreferLetElse};

fn if_expr(condition: Condition, else_type: Option<ElseType>) -> Expr {
    Expr::If(IfExpr { condition, else_type, start: 10, end: 40 })
}

const MESSAGE: &str = "`if let` with a diverging `else` can be rewritten as `let-else`";

#[test]
fn if_let_whose_else_returns_is_flagged() {
    let diagnostics = PreferLetElse.check_expr(&if_expr(Condition::Let, Some(ElseType::Never)));

    assert_eq!(diagnostics.len(), 1);
    assert_eq!(diagnostics[0].rule, "lint.prefer-let-else");
    assert_eq!(diagnostics[0].message, MESSAGE);
    assert_eq!((diagnostics[0].start, diagnostics[0].end), (10, 40));
}

#[test]
fn let_else_rule_skips_if_let_without_else() {
    let diagnostics = PreferLetElse.check_expr(&if_expr(Condition::Let, None));

    assert!(diagnostics.is_empty());
}

#[test]
fn let_else_rule_skips_non_diverging_else() {
    let diagnostics = PreferLetElse.check_expr(&if_expr(Condition::Let, Some(ElseType::Other)));

    assert!(diagnostics.is_empty());
}

#[test]
fn let_else_rule_skips_plain_if() {
    let diagnostics = PreferLetElse.check_expr(&if_expr(Condition::Other, Some(ElseType::Never)));

    assert!(diagnostics.is_empty());
}

#[test]
fn let_else_rule_skips_other_expressions() {
    assert!(PreferLetElse.check_expr(&Expr::Other).is_empty());
}

#[test]
fn help_names_let_else() {
    assert_eq!(PreferLetElse.help(), "use `let ... else { <diverge> };` instead");
}

#[test]
fn prefer_let_else_trait_send() {
    fn assert_send<T: Send>() {}
    assert_send::<PreferLetElse>();
}

#[test]
fn prefer_let_else_trait_sync() {
    fn assert_sync<T: Sync>() {}
    assert_sync::<PreferLetElse>();
}

#[test]
fn prefer_let_else_trait_unpin() {
    fn assert_unpin<T: Unpin>() {}
    assert_unpin::<PreferLetElse>();
}
