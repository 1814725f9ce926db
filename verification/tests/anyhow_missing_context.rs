use whisker_aonyx_rules::anyhow_missing_context::{
    find_enclosing_fn_signature, is_anyhow_error_path, is_context_call, AnyhowMissingContext,
};
use whisker_aonyx_rules::decorations::{Decorations, FnSignature, ResolvedType, TypePath};
use whisker_aonyx_rules::diagnostic::Diagnostic;
use whisker_aonyx_rules::parse::parse_rust;
use whisker_aonyx_rules::syntax::{named_child, SyntaxTree};

fn of_kind(tree: &SyntaxTree, kind: &str) -> Vec<usize> {
    (0..tree.len()).filter(|i| tree.node(*i).kind == kind).collect()
}

fn path(krate: &str, modules: &[&str], name: &str) -> TypePath {
    TypePath {
        krate: krate.to_owned(),
        modules: modules.iter().map(|m| (*m).to_owned()).collect(),
        name: name.to_owned(),
    }
}

fn result_type() -> ResolvedType {
    ResolvedType::new("Result<(), Error>".to_owned()).with_result(true)
}

fn option_type() -> ResolvedType {
    ResolvedType::new("Option<String>".to_owned()).with_option(true)
}

fn anyhow_fn_sig() -> FnSignature {
    FnSignature { error: Some(path("anyhow", &[], "Error")) }
}

fn non_anyhow_fn_sig() -> FnSignature {
    FnSignature { error: Some(path("core", &["io", "error"], "Error")) }
}

fn operand(tree: &SyntaxTree) -> usize {
    let t = of_kind(tree, "try_expression")[0];
    named_child(tree, t, 0).expect("operand")
}

fn function(tree: &SyntaxTree) -> usize {
    of_kind(tree, "function_item")[0]
}

fn run(tree: &SyntaxTree, d: &Decorations) -> Vec<Diagnostic> {
    let rule = AnyhowMissingContext;
    let mut out = Vec::new();
    for t in of_kind(tree, "try_expression") {
        out.extend(rule.check_try_expression(tree, d, t));
    }
    out
}

fn decorated(source: &str, operand_type: Option<ResolvedType>, sig: FnSignature) -> (SyntaxTree, Decorations) {
    let tree = parse_rust(source).expect("parses");
    let mut d = Decorations::new();
    if let Some(ty) = operand_type {
        d.insert_resolved_type(operand(&tree), ty);
    }
    d.insert_fn_signature(function(&tree), sig);
    (tree, d)
}

#[test]
fn in_anyhow_fn_without_context_is_flagged() {
    let (tree, d) = decorated("fn foo() -> Result<(), Error> { something()?; }", Some(result_type()), anyhow_fn_sig());
    let diagnostics = run(&tree, &d);
    assert_eq!(diagnostics.len(), 1);
    assert_eq!(diagnostics[0].rule, "lint.anyhow-missing-context");
    assert!(diagnostics[0].message.contains("without error context"));
}

#[test]
fn in_async_block_inside_anyhow_fn_is_not_flagged() {
    let (tree, d) = decorated("fn foo() -> Result<(), Error> { async { something()?; } }", Some(result_type()), anyhow_fn_sig());
    assert!(run(&tree, &d).is_empty());
}

#[test]
fn in_closure_inside_anyhow_fn_is_not_flagged() {
    let (tree, d) = decorated("fn foo() -> Result<(), Error> { let f = || { something()?; }; }", Some(result_type()), anyhow_fn_sig());
    assert!(run(&tree, &d).is_empty());
}

#[test]
fn in_non_anyhow_fn_is_not_flagged() {
    let (tree, d) = decorated("fn foo() -> Result<(), IoError> { something()?; }", Some(result_type()), non_anyhow_fn_sig());
    assert!(run(&tree, &d).is_empty());
}

#[test]
fn no_resolved_type_decoration_is_not_flagged() {
    let (tree, d) = decorated("fn foo() -> Result<(), Error> { something()?; }", None, anyhow_fn_sig());
    assert!(run(&tree, &d).is_empty());
}

#[test]
fn on_option_is_not_flagged() {
    let (tree, d) = decorated("fn foo() -> Result<(), Error> { something()?; }", Some(option_type()), anyhow_fn_sig());
    assert!(run(&tree, &d).is_empty());
}

#[test]
fn anyhow_missing_context_trait_send() {
    fn assert_send<T: Send>() {}
    assert_send::<AnyhowMissingContext>();
}

#[test]
fn anyhow_missing_context_trait_sync() {
    fn assert_sync<T: Sync>() {}
    assert_sync::<AnyhowMissingContext>();
}

#[test]
fn anyhow_missing_context_trait_unpin() {
    fn assert_unpin<T: Unpin>() {}
    assert_unpin::<AnyhowMissingContext>();
}

#[test]
fn with_context_call_is_not_flagged() {
    let (tree, d) = decorated(
        "fn foo() -> Result<(), Error> { something().with_context(|| \"msg\")?; }",
        Some(result_type()),
        anyhow_fn_sig(),
    );
    assert!(run(&tree, &d).is_empty());
}

#[test]
fn with_dot_context_call_is_not_flagged() {
    let (tree, d) = decorated(
        "fn foo() -> Result<(), Error> { something().context(\"reading file\")?; }",
        Some(result_type()),
        anyhow_fn_sig(),
    );
    assert!(run(&tree, &d).is_empty());
}

#[test]
fn finding_spans_the_whole_try_expression() {
    let source = "fn foo() -> Result<(), Error> { something()?; }";
    let (tree, d) = decorated(source, Some(result_type()), anyhow_fn_sig());
    let diagnostics = run(&tree, &d);
    assert_eq!(diagnostics[0].message, "use of `?` on Result without error context");
    assert_eq!(&source[diagnostics[0].start..diagnostics[0].end], "something()?");
}

#[test]
fn anyhow_path_must_match_exactly() {
    assert!(is_anyhow_error_path(&path("anyhow", &[], "Error")));
    assert!(!is_anyhow_error_path(&path("anyhow", &["error"], "Error")));
    assert!(!is_anyhow_error_path(&path("eyre", &[], "Error")));
    assert!(!is_anyhow_error_path(&path("anyhow", &[], "Result")));
}

#[test]
fn enclosing_signature_is_found_through_nested_blocks() {
    let (tree, d) = decorated("fn foo() -> Result<(), Error> { if x { { something()?; } } }", Some(result_type()), anyhow_fn_sig());
    let t = of_kind(&tree, "try_expression")[0];
    assert!(find_enclosing_fn_signature(&tree, &d, t).is_some());
    assert_eq!(run(&tree, &d).len(), 1);
}

#[test]
fn plain_call_is_no_context_call() {
    let tree = parse_rust("fn foo() { a.other(1)?; b.context(2)?; }").expect("parses");
    let calls = of_kind(&tree, "call_expression");
    assert_eq!(calls.len(), 2);
    assert!(!is_context_call(&tree, calls[0]));
    assert!(is_context_call(&tree, calls[1]));
}
