use whisker_aonyx_rules::diagnostic::Diagnostic;
use whisker_aonyx_rules::no_matches_macro::NoMatchesMacro;
use whisker_aonyx_rules::parse::parse_rust;

fn run(source: &str) -> Vec<Diagnostic> {
    let tree = parse_rust(source).expect("parses");
    let rule = NoMatchesMacro;
    let mut out = Vec::new();
    for i in 0..tree.len() {
        if tree.node(i).kind == "macro_invocation" {
            out.extend(rule.check_macro_invocation(&tree, i));
        }
    }
    out
}

#[test]
fn assert_is_not_flagged() {
    assert!(run("fn f() { assert!(true); }").is_empty());
}

#[test]
fn matches_in_function_argument_is_flagged() {
    assert_eq!(run("fn f() { foo(matches!(x, 1)); }").len(), 1);
}

#[test]
fn matches_in_let_binding_is_flagged() {
    let diagnostics = run("fn f() { let _ = matches!(x, Some(_)); }");
    assert_eq!(diagnostics.len(), 1);
    assert_eq!(diagnostics[0].rule, "lint.no-matches-macro");
    assert!(diagnostics[0].message.contains("match"));
}

#[test]
fn matches_in_return_position_is_flagged() {
    assert_eq!(run("fn f() -> bool { matches!(x, Some(_)) }").len(), 1);
}

#[test]
fn matches_with_multiple_patterns_is_flagged() {
    assert_eq!(run("fn f() { let _ = matches!(x, Foo | Bar); }").len(), 1);
}

#[test]
fn println_is_not_flagged() {
    assert!(run("fn f() { println!(\"hello\"); }").is_empty());
}

#[test]
fn regular_match_expression_is_not_flagged() {
    assert!(run("fn f() { match x { 0 => {} _ => {} } }").is_empty());
}

#[test]
fn no_matches_macro_trait_send() {
    fn assert_send<T: Send>() {}
    assert_send::<NoMatchesMacro>();
}

#[test]
fn no_matches_macro_trait_sync() {
    fn assert_sync<T: Sync>() {}
    assert_sync::<NoMatchesMacro>();
}

#[test]
fn no_matches_macro_trait_unpin() {
    fn assert_unpin<T: Unpin>() {}
    assert_unpin::<NoMatchesMacro>();
}

#[test]
fn qualified_matches_path_is_not_flagged() {
    assert!(run("fn f() { let _ = std::matches!(x, 1); }").is_empty());
}

#[test]
fn finding_spans_the_invocation() {
    let source = "fn f() { let _ = matches!(x, 1); }";
    let diagnostics = run(source);
    assert_eq!(diagnostics[0].message, "use a full `match` expression instead of `matches!`");
    assert_eq!(&source[diagnostics[0].start..diagnostics[0].end], "matches!(x, 1)");
}
