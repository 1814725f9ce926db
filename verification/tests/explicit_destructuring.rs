use whisker_aonyx_rules::diagnostic::Diagnostic;
use whisker_aonyx_rules::explicit_destructuring::{bound_name, ExplicitDestructuring};
use whisker_aonyx_rules::parse::parse_rust;
use whisker_aonyx_rules::syntax::SyntaxTree;

fn of_kind(tree: &SyntaxTree, kind: &str) -> Vec<usize> {
    (0..tree.len()).filter(|i| tree.node(*i).kind == kind).collect()
}

fn run(source: &str) -> Vec<Diagnostic> {
    let tree = parse_rust(source).expect("parses");
    let rule = ExplicitDestructuring;
    let mut out = Vec::new();
    for b in of_kind(&tree, "block") {
        out.extend(rule.check_block(&tree, b));
    }
    out
}

fn says(d: &Diagnostic, text: &str) {
    assert_eq!(d.rule, "lint.explicit-destructuring");
    assert!(d.message.contains(text), "{:?} lacks {:?}", d.message, text);
}

#[test]
fn assigned_field_is_not_flagged() {
    assert!(run("fn f() { u.a = u.b; }").is_empty());
}

#[test]
fn binding_passed_whole_is_not_flagged() {
    assert!(run("fn f() { g(u, u.a, u.b); }").is_empty());
}

#[test]
fn block_tail_expression_is_flagged() {
    let diagnostics = run("fn f() -> u32 { r.width * r.height }");
    assert_eq!(diagnostics.len(), 1);
    says(&diagnostics[0], "2 fields of `r`");
}

#[test]
fn closure_parameter_is_a_whole_use() {
    assert!(run("fn f() { g(it.map(|e| e.a + e.b)); }").is_empty());
}

#[test]
fn closure_with_a_block_body_is_checked_as_its_own_scope() {
    let diagnostics = run("fn f() { g(it.map(|e| { h(e.a, e.b) })); }");
    assert_eq!(diagnostics.len(), 1);
    says(&diagnostics[0], "2 fields of `e`");
}

#[test]
fn compound_assigned_field_is_not_flagged() {
    assert!(run("fn f() { u.a += u.b; }").is_empty());
}

#[test]
fn field_read_twice_is_not_flagged() {
    assert!(run("fn f() { g(u.a, u.a); }").is_empty());
}

#[test]
fn fields_in_separate_statements_are_not_flagged() {
    assert!(run("fn f() { let a = u.a; let b = u.b; }").is_empty());
}

#[test]
fn fields_inside_a_macro_are_not_flagged() {
    assert!(run(r#"fn f() { println!("{} {}", u.a, u.b); }"#).is_empty());
}

#[test]
fn fields_of_a_nested_value_are_flagged_on_the_outer_binding_only() {
    let diagnostics = run("fn f() { g(u.a.x, u.b.y); }");
    assert_eq!(diagnostics.len(), 1);
    says(&diagnostics[0], "2 fields of `u`");
}

#[test]
fn fields_of_two_bindings_are_flagged_separately() {
    let diagnostics = run("fn f() { g(u.a, u.b, v.a, v.b); }");
    assert_eq!(diagnostics.len(), 2);
    says(&diagnostics[0], "`u`");
    says(&diagnostics[1], "`v`");
}

#[test]
fn for_pattern_binding_gets_the_pattern_advice() {
    let diagnostics = run("fn f() { for e in it { m.insert(e.key, e.value); } }");
    assert_eq!(diagnostics.len(), 1);
    says(&diagnostics[0], "destructure `e` in the `for` pattern");
}

#[test]
fn for_pattern_that_destructures_behind_a_reference_gets_the_plain_advice() {
    let diagnostics = run("fn f() { for &(a, b) in it { m.insert(b.key, b.value); } }");
    assert_eq!(diagnostics.len(), 1);
    says(&diagnostics[0], "destructure `b`");
    assert!(!diagnostics[0].message.contains("`for` pattern"));
}

#[test]
fn for_pattern_that_destructures_gets_the_plain_advice() {
    let diagnostics = run("fn f() { for (a, b) in it { m.insert(a.key, a.value); } }");
    assert_eq!(diagnostics.len(), 1);
    says(&diagnostics[0], "destructure `a`");
    assert!(!diagnostics[0].message.contains("`for` pattern"));
}

#[test]
fn for_pattern_with_mut_binding_gets_the_pattern_advice() {
    let diagnostics = run("fn f() { for mut e in it { m.insert(e.key, e.value); } }");
    assert_eq!(diagnostics.len(), 1);
    says(&diagnostics[0], "destructure `e` in the `for` pattern");
}

#[test]
fn for_pattern_with_mutable_reference_binding_gets_the_pattern_advice() {
    let diagnostics = run("fn f() { for &mut e in it { m.insert(e.key, e.value); } }");
    assert_eq!(diagnostics.len(), 1);
    says(&diagnostics[0], "destructure `e` in the `for` pattern");
}

#[test]
fn for_pattern_with_ref_binding_gets_the_pattern_advice() {
    let diagnostics = run("fn f() { for ref e in it { m.insert(e.key, e.value); } }");
    assert_eq!(diagnostics.len(), 1);
    says(&diagnostics[0], "destructure `e` in the `for` pattern");
}

#[test]
fn for_pattern_with_ref_mut_binding_gets_the_pattern_advice() {
    let diagnostics = run("fn f() { for ref mut e in it { m.insert(e.key, e.value); } }");
    assert_eq!(diagnostics.len(), 1);
    says(&diagnostics[0], "destructure `e` in the `for` pattern");
}

#[test]
fn for_pattern_with_reference_binding_gets_the_pattern_advice() {
    let diagnostics = run("fn f() { for &e in it { m.insert(e.key, e.value); } }");
    assert_eq!(diagnostics.len(), 1);
    says(&diagnostics[0], "destructure `e` in the `for` pattern");
}

#[test]
fn generic_method_call_is_not_a_field_read() {
    assert!(run("fn f() { g(u.a, u.parse::<u32>()); }").is_empty());
}

#[test]
fn method_call_on_a_field_is_still_a_field_read() {
    let diagnostics = run("fn f() { g(u.a.len(), u.b.len()); }");
    assert_eq!(diagnostics.len(), 1);
    says(&diagnostics[0], "2 fields of `u`");
}

#[test]
fn method_call_on_the_binding_is_not_flagged() {
    assert!(run("fn f() { g(u.a, u.b, u.total()); }").is_empty());
}

#[test]
fn method_calls_are_not_field_reads() {
    assert!(run("fn f() { g(u.a(), u.b()); }").is_empty());
}

#[test]
fn nested_block_reads_are_not_merged_with_the_outer_statement() {
    assert!(run("fn f() { let x = if c { u.a } else { u.b }; }").is_empty());
}

#[test]
fn one_field_is_not_flagged() {
    assert!(run("fn f() { g(u.a); }").is_empty());
}

#[test]
fn self_fields_are_not_flagged() {
    assert!(run("impl T { fn f(&self) { g(self.a, self.b, self.c); } }").is_empty());
}

#[test]
fn struct_expression_fields_are_flagged() {
    let diagnostics = run("fn f() { let p = Point { x: u.a, y: u.b }; }");
    assert_eq!(diagnostics.len(), 1);
    says(&diagnostics[0], "2 fields of `u`");
}

#[test]
fn three_fields_in_one_call_are_flagged() {
    let diagnostics = run("fn f() { process(user.id, user.name, user.email); }");
    assert_eq!(diagnostics.len(), 1);
    says(&diagnostics[0], "this statement reads 3 fields of `user`; destructure `user`");
}

#[test]
fn explicit_destructuring_trait_send() {
    fn assert_send<T: Send>() {}
    assert_send::<ExplicitDestructuring>();
}

#[test]
fn explicit_destructuring_trait_sync() {
    fn assert_sync<T: Sync>() {}
    assert_sync::<ExplicitDestructuring>();
}

#[test]
fn explicit_destructuring_trait_unpin() {
    fn assert_unpin<T: Unpin>() {}
    assert_unpin::<ExplicitDestructuring>();
}

#[test]
fn tuple_indices_are_not_flagged() {
    assert!(run("fn f() { g(t.0, t.1); }").is_empty());
}

#[test]
fn finding_spans_the_first_read() {
    let source = "fn f() { g(x, user.id, user.name); }";
    let diagnostics = run(source);
    assert_eq!(diagnostics.len(), 1);
    assert_eq!(diagnostics[0].message, "this statement reads 2 fields of `user`; destructure `user`");
    assert_eq!(&source[diagnostics[0].start..diagnostics[0].end], "user.id");
}

#[test]
fn whole_pattern_advice_message() {
    let diagnostics = run("fn f() { for e in it { m.insert(e.key, e.value, e.key); } }");
    assert_eq!(
        diagnostics[0].message,
        "this statement reads 2 fields of `e`; destructure `e` in the `for` pattern"
    );
}

#[test]
fn bound_name_looks_through_wrappers_only() {
    let tree = parse_rust("fn f() { for ref mut e in a {} for (x, y) in b {} }").expect("parses");
    let loops = of_kind(&tree, "for_expression");
    let pattern = |l: usize| whisker_aonyx_rules::syntax::child_by_field_name(&tree, l, "pattern").expect("pattern");
    assert_eq!(bound_name(&tree, pattern(loops[0])), Some("e"));
    assert_eq!(bound_name(&tree, pattern(loops[1])), None);
}
