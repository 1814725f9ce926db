use whisker_aonyx_rules::bool_param::{is_bool_type, BoolParam};
use whisker_aonyx_rules::diagnostic::Diagnostic;
use whisker_aonyx_rules::parse::parse_rust;
use whisker_aonyx_rules::syntax::SyntaxTree;

const ATTRIBUTES: &[&str] = &["shard"];

const EXEMPT: &[&str] = &[
    "pub extern \"C\" fn f(flag: bool, path: String, text: String) {}",
    "#[shard]\npub fn f(flag: bool, path: String, text: String) {}",
    "#[topcoat::shard]\npub fn f(flag: bool, path: String, text: String) {}",
    "impl S {\n    #[shard]\n    fn f(flag: bool, path: String, text: String) {}\n}",
    "#[shard]\n/// Doc\n#[inline]\nfn f(flag: bool, path: String, text: String) {}",
];

const REPORTED: &[&str] = &[
    "pub fn f(flag: bool, path: String, text: String) {}",
    "#[inline]\npub fn f(flag: bool, path: String, text: String) {}",
    "#[shard]\nfn a(x: String) {}\nfn b(flag: bool, path: String, text: String) {}",
];

fn of_kind(tree: &SyntaxTree, kind: &str) -> Vec<usize> {
    (0..tree.len()).filter(|i| tree.node(*i).kind == kind).collect()
}

fn check(pass: &BoolParam, source: &str) -> Vec<Diagnostic> {
    let tree = parse_rust(source).expect("parses");
    let mut out = Vec::new();
    for i in 0..tree.len() {
        match tree.node(i).kind.as_str() {
            "function_item" => out.extend(pass.check_function_item(&tree, i)),
            "struct_item" => out.extend(pass.check_struct_item(&tree, i)),
            _ => {}
        }
    }
    out
}

fn run(source: &str) -> Vec<Diagnostic> {
    check(&BoolParam::new(), source)
}

fn run_with_boundary_attributes(source: &str, boundary: &[&str]) -> Vec<Diagnostic> {
    let mut pass = BoolParam::new();
    pass.configure(Some(boundary.iter().map(|n| (*n).to_owned()).collect()));
    check(&pass, source)
}

fn assert_bool_param(d: &Diagnostic, text: &str) {
    assert_eq!(d.rule, "lint.bool-param");
    assert!(d.message.contains(text), "{:?} lacks {:?}", d.message, text);
}

#[test]
fn every_boundary_in_the_shared_corpus_reports_nothing() {
    for source in EXEMPT {
        let diagnostics = run_with_boundary_attributes(source, ATTRIBUTES);
        assert!(diagnostics.is_empty(), "should report nothing for a boundary: {source}");
    }
}

#[test]
fn every_signature_off_the_boundary_in_the_shared_corpus_reports() {
    for source in REPORTED {
        let diagnostics = run_with_boundary_attributes(source, ATTRIBUTES);
        assert!(!diagnostics.is_empty(), "should report a signature on no boundary: {source}");
    }
}

#[test]
fn bool_local_variable_not_flagged() {
    assert!(run("fn foo() { let x: bool = true; }").is_empty());
}

#[test]
fn bool_param_in_function_flagged() {
    let diagnostics = run("fn foo(x: bool) {}");
    assert_eq!(diagnostics.len(), 1);
    assert_bool_param(&diagnostics[0], "parameter has type `bool`");
}

#[test]
fn bool_param_in_an_extern_block_not_flagged() {
    assert!(run("unsafe extern \"C\" { fn f(x: bool); }").is_empty());
}

#[test]
fn bool_param_in_an_extern_function_not_flagged() {
    assert!(run("pub extern \"C\" fn foo(x: bool) {}").is_empty());
}

#[test]
fn bool_param_behind_a_configured_attribute_not_flagged() {
    assert!(run_with_boundary_attributes("#[shard]\nfn foo(x: bool) {}", &["shard"]).is_empty());
}

#[test]
fn bool_param_behind_a_configured_attribute_written_in_full_not_flagged() {
    assert!(run_with_boundary_attributes("#[topcoat::shard]\nfn foo(x: bool) {}", &["shard"]).is_empty());
}

#[test]
fn bool_param_behind_an_attribute_nobody_configured_flagged() {
    let diagnostics = run("#[shard]\nfn foo(x: bool) {}");
    assert_eq!(diagnostics.len(), 1);
    assert_bool_param(&diagnostics[0], "parameter has type `bool`");
}

#[test]
fn bool_param_behind_another_attribute_flagged() {
    let diagnostics = run_with_boundary_attributes("#[inline]\nfn foo(x: bool) {}", &["shard"]);
    assert_eq!(diagnostics.len(), 1);
    assert_bool_param(&diagnostics[0], "parameter has type `bool`");
}

#[test]
fn bool_struct_field_behind_a_configured_attribute_flagged() {
    let diagnostics = run_with_boundary_attributes("#[shard]\nstruct Config { verbose: bool }", &["shard"]);
    assert_eq!(diagnostics.len(), 1);
    assert_bool_param(&diagnostics[0], "struct field has type `bool`");
}

#[test]
fn bool_return_type_not_flagged() {
    assert!(run("fn foo() -> bool { true }").is_empty());
}

#[test]
fn bool_struct_field_flagged() {
    let diagnostics = run("struct Config { verbose: bool }");
    assert_eq!(diagnostics.len(), 1);
    assert_bool_param(&diagnostics[0], "struct field has type `bool`");
}

#[test]
fn multiple_bool_params_each_flagged() {
    let diagnostics = run("fn foo(a: bool, b: bool) {}");
    assert_eq!(diagnostics.len(), 2);
    assert_bool_param(&diagnostics[0], "parameter has type `bool`");
    assert_bool_param(&diagnostics[1], "parameter has type `bool`");
}

#[test]
fn non_bool_param_not_flagged() {
    assert!(run("fn foo(x: i32, y: String) {}").is_empty());
}

#[test]
fn bool_param_trait_send() {
    fn assert_send<T: Send>() {}
    assert_send::<BoolParam>();
}

#[test]
fn bool_param_trait_sync() {
    fn assert_sync<T: Sync>() {}
    assert_sync::<BoolParam>();
}

#[test]
fn bool_param_trait_unpin() {
    fn assert_unpin<T: Unpin>() {}
    assert_unpin::<BoolParam>();
}

#[test]
fn finding_spans_the_bool_type() {
    let source = "fn foo(a: i32, b: bool) {}";
    let diagnostics = run(source);
    assert_eq!(diagnostics.len(), 1);
    assert_eq!(diagnostics[0].message, "parameter has type `bool`; use an enum with meaningful variants");
    assert_eq!(&source[diagnostics[0].start..diagnostics[0].end], "bool");
}

#[test]
fn configure_with_none_clears_the_boundary() {
    let mut pass = BoolParam::new();
    pass.configure(Some(vec!["shard".to_owned()]));
    pass.configure(None);
    assert_eq!(check(&pass, "#[shard]\nfn foo(x: bool) {}").len(), 1);
}

#[test]
fn reference_to_bool_is_no_bool_type() {
    let tree = parse_rust("fn foo(a: &bool, b: bool) {}").expect("parses");
    let prims = of_kind(&tree, "primitive_type");
    assert_eq!(prims.len(), 2);
    assert!(is_bool_type(&tree, prims[0]));
    assert!(is_bool_type(&tree, prims[1]));
    assert_eq!(run("fn foo(a: &bool) {}").len(), 0);
}

#[test]
fn every_exempt_source_trips_both_rules_when_nothing_exempts_it() {
    for source in EXEMPT {
        assert!(source.contains("bool"), "no bool parameter in: {source}");
        assert!(source.matches("String").count() >= 2, "fewer than two String parameters in: {source}");
    }
}

#[test]
fn every_reported_source_trips_both_rules() {
    for source in REPORTED {
        assert!(source.contains("bool"), "no bool parameter in: {source}");
        assert!(source.matches("String").count() >= 2, "fewer than two String parameters in: {source}");
    }
}
