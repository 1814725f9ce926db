use whisker_aonyx_rules::diagnostic::Diagnostic;
use whisker_aonyx_rules::if_let_with_else::{has_let_condition, is_node_diverging, IfLetWithElse};
use whisker_aonyx_rules::parse::parse_rust;
use whisker_aonyx_rules::syntax::SyntaxTree;

fn of_kind(tree: &SyntaxTree, kind: &str) -> Vec<usize> {
    (0..tree.len()).filter(|i| tree.node(*i).kind == kind).collect()
}

fn run(source: &str) -> Vec<Diagnostic> {
    let tree = parse_rust(source).expect("parses");
    let rule = IfLetWithElse;
    let mut out = Vec::new();
    for i in of_kind(&tree, "if_expression") {
        out.extend(rule.check_if_expression(&tree, i));
    }
    out
}

fn with_else(body: &str) -> String {
    format!("fn f() {{\n    loop {{\n        if let Some(x) = val {{\n            use_x(x);\n        }} else {{\n            {body}\n        }}\n    }}\n}}\n")
}

#[test]
fn if_let_with_break_in_else_is_not_flagged() {
    assert!(run(&with_else("break;")).is_empty());
}

#[test]
fn if_let_with_continue_in_else_is_not_flagged() {
    assert!(run(&with_else("continue;")).is_empty());
}

#[test]
fn if_let_with_non_diverging_else_is_flagged() {
    let diagnostics = run(&with_else("do_something();"));
    assert_eq!(diagnostics.len(), 1);
    assert_eq!(diagnostics[0].rule, "lint.if-let-with-else");
    assert!(diagnostics[0].message.contains("match"));
}

#[test]
fn if_let_with_panic_in_else_is_not_flagged() {
    assert!(run(&with_else("panic!(\"unexpected\");")).is_empty());
}

#[test]
fn if_let_with_return_in_else_is_not_flagged() {
    assert!(run(&with_else("return;")).is_empty());
}

#[test]
fn if_let_with_todo_in_else_is_not_flagged() {
    assert!(run(&with_else("todo!();")).is_empty());
}

#[test]
fn if_let_with_unimplemented_in_else_is_not_flagged() {
    assert!(run(&with_else("unimplemented!();")).is_empty());
}

#[test]
fn if_let_with_unreachable_in_else_is_not_flagged() {
    assert!(run(&with_else("unreachable!();")).is_empty());
}

#[test]
fn if_let_without_else_is_not_flagged() {
    assert!(run("fn f() {\n    if let Some(x) = val {\n        use_x(x);\n    }\n}\n").is_empty());
}

#[test]
fn regular_if_with_else_is_not_flagged() {
    assert!(run("fn f() {\n    if condition {\n        do_a();\n    } else {\n        do_b();\n    }\n}\n").is_empty());
}

#[test]
fn if_let_with_else_trait_send() {
    fn assert_send<T: Send>() {}
    assert_send::<IfLetWithElse>();
}

#[test]
fn if_let_with_else_trait_sync() {
    fn assert_sync<T: Sync>() {}
    assert_sync::<IfLetWithElse>();
}

#[test]
fn if_let_with_else_trait_unpin() {
    fn assert_unpin<T: Unpin>() {}
    assert_unpin::<IfLetWithElse>();
}

#[test]
fn finding_spans_the_whole_if_expression() {
    let source = "fn f() { if let Some(x) = v { a(x) } else { b() } }";
    let diagnostics = run(source);
    assert_eq!(diagnostics.len(), 1);
    assert_eq!(diagnostics[0].message, "`if let` with `else` should be written as a `match` expression");
    assert_eq!(&source[diagnostics[0].start..diagnostics[0].end], "if let Some(x) = v { a(x) } else { b() }");
}

#[test]
fn else_if_chain_is_flagged() {
    assert_eq!(run("fn f() { if let Some(x) = v { a(x) } else if c { b() } }").len(), 1);
}

#[test]
fn empty_else_block_is_flagged() {
    assert_eq!(run("fn f() { if let Some(x) = v { a(x) } else { } }").len(), 1);
}

#[test]
fn let_chain_condition_is_found() {
    let tree = parse_rust("fn f() { if a && let Some(x) = v { x } else { 0 }; if a { 1 } else { 2 }; }").expect("parses");
    let ifs = of_kind(&tree, "if_expression");
    assert_eq!(ifs.len(), 2);
    let conds: Vec<usize> = ifs
        .iter()
        .map(|i| whisker_aonyx_rules::syntax::child_by_field_name(&tree, *i, "condition").expect("condition"))
        .collect();
    assert!(has_let_condition(&tree, conds[0]));
    assert!(!has_let_condition(&tree, conds[1]));
}

#[test]
fn other_macro_does_not_diverge() {
    let tree = parse_rust("fn f() { println!(\"x\"); panic!(); }").expect("parses");
    let macros = of_kind(&tree, "macro_invocation");
    assert_eq!(macros.len(), 2);
    assert!(!is_node_diverging(&tree, macros[0]));
    assert!(is_node_diverging(&tree, macros[1]));
}
