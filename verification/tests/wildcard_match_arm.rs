use whisker_aonyx_rules::decorations::{Decorations, ResolvedType};
use whisker_aonyx_rules::diagnostic::Diagnostic;
use whisker_aonyx_rules::parse::parse_rust;
use whisker_aonyx_rules::syntax::{child_by_field_name, SyntaxTree};
use whisker_aonyx_rules::wildcard_match_arm::{is_wildcard_pattern, WildcardMatchArm};

fn of_kind(tree: &SyntaxTree, kind: &str) -> Vec<usize> {
    (0..tree.len()).filter(|i| tree.node(*i).kind == kind).collect()
}

fn scrutinee(tree: &SyntaxTree) -> usize {
    let m = of_kind(tree, "match_expression")[0];
    child_by_field_name(tree, m, "value").expect("match has a value")
}

fn run(tree: &SyntaxTree, decorations: &Decorations) -> Vec<Diagnostic> {
    let rule = WildcardMatchArm;
    let mut out = Vec::new();
    for m in of_kind(tree, "match_expression") {
        out.extend(rule.check_match_expression(tree, decorations, m));
    }
    out
}

fn enum_type(name: &str) -> ResolvedType {
    ResolvedType::new(name.to_owned()).with_enum(true)
}

#[test]
fn detect_with_enum_scrutinee_flags_wildcard() {
    let tree = parse_rust("fn f() { match x { A => {} _ => {} } }").expect("parses");
    let mut d = Decorations::new();
    d.insert_resolved_type(scrutinee(&tree), enum_type("MyEnum"));
    let diagnostics = run(&tree, &d);
    assert_eq!(diagnostics.len(), 1);
    assert_eq!(diagnostics[0].rule, "lint.wildcard-match-arm");
    assert!(diagnostics[0].message.contains("wildcard"));
}

#[test]
fn detect_without_decoration_does_nothing() {
    let tree = parse_rust("fn f() { match x { A => {} _ => {} } }").expect("parses");
    assert!(run(&tree, &Decorations::new()).is_empty());
}

#[test]
fn non_enum_type_is_not_flagged() {
    let tree = parse_rust("fn f() { match x { 0 => {} _ => {} } }").expect("parses");
    let mut d = Decorations::new();
    d.insert_resolved_type(scrutinee(&tree), ResolvedType::new("i32".to_owned()).with_enum(false));
    assert!(run(&tree, &d).is_empty());
}

#[test]
fn non_exhaustive_external_enum_is_not_flagged() {
    let tree = parse_rust("fn f() { match x { A => {} _ => {} } }").expect("parses");
    let s = scrutinee(&tree);
    let mut d = Decorations::new();
    d.insert_resolved_type(s, enum_type("ExternalEnum"));
    d.insert_adt_flags(s, true);
    assert!(run(&tree, &d).is_empty());
}

#[test]
fn non_exhaustive_local_enum_is_flagged() {
    let tree = parse_rust("fn f() { match x { A => {} _ => {} } }").expect("parses");
    let s = scrutinee(&tree);
    let mut d = Decorations::new();
    d.insert_resolved_type(s, enum_type("LocalEnum"));
    d.insert_adt_flags(s, false);
    let diagnostics = run(&tree, &d);
    assert_eq!(diagnostics.len(), 1);
    assert_eq!(diagnostics[0].rule, "lint.wildcard-match-arm");
}

#[test]
fn if_let_does_not_trigger_lint() {
    let tree = parse_rust("fn f() { if let Some(x) = opt { x } else { 0 } }").expect("parses");
    assert!(run(&tree, &Decorations::new()).is_empty());
}

#[test]
fn no_wildcard_arm_is_not_flagged() {
    let tree = parse_rust("fn f() { match x { A => {} B => {} } }").expect("parses");
    let mut d = Decorations::new();
    d.insert_resolved_type(scrutinee(&tree), enum_type("MyEnum"));
    assert!(run(&tree, &d).is_empty());
}

#[test]
fn wildcard_match_arm_trait_send() {
    fn assert_send<T: Send>() {}
    assert_send::<WildcardMatchArm>();
}

#[test]
fn wildcard_match_arm_trait_sync() {
    fn assert_sync<T: Sync>() {}
    assert_sync::<WildcardMatchArm>();
}

#[test]
fn wildcard_match_arm_trait_unpin() {
    fn assert_unpin<T: Unpin>() {}
    assert_unpin::<WildcardMatchArm>();
}

#[test]
fn wildcard_finding_spans_the_pattern() {
    let source = "fn f() { match x { A => {} _ => {} } }";
    let tree = parse_rust(source).expect("parses");
    let mut d = Decorations::new();
    d.insert_resolved_type(scrutinee(&tree), enum_type("MyEnum"));
    let diagnostics = run(&tree, &d);
    assert_eq!(diagnostics.len(), 1);
    assert_eq!(diagnostics[0].message, "wildcard match arm hides unhandled variants");
    assert_eq!(&source[diagnostics[0].start..diagnostics[0].end], "_");
}

#[test]
fn each_wildcard_arm_is_flagged() {
    let tree = parse_rust("fn f() { match x { A => {} _ if c => {} _ => {} } }").expect("parses");
    let mut d = Decorations::new();
    d.insert_resolved_type(scrutinee(&tree), enum_type("MyEnum"));
    assert_eq!(run(&tree, &d).len(), 2);
}

#[test]
fn a_later_fact_replaces_an_earlier_one() {
    let tree = parse_rust("fn f() { match x { A => {} _ => {} } }").expect("parses");
    let s = scrutinee(&tree);
    let mut d = Decorations::new();
    d.insert_resolved_type(s, enum_type("MyEnum"));
    d.insert_adt_flags(s, true);
    d.insert_adt_flags(s, false);
    assert_eq!(d.non_exhaustive_external(s), Some(false));
    assert_eq!(run(&tree, &d).len(), 1);
}

#[test]
fn binding_pattern_is_no_wildcard() {
    let tree = parse_rust("fn f() { match x { A => {} other => {} } }").expect("parses");
    let patterns = of_kind(&tree, "match_pattern");
    assert_eq!(patterns.len(), 2);
    assert!(!is_wildcard_pattern(&tree, patterns[0]));
    assert!(!is_wildcard_pattern(&tree, patterns[1]));
}
