use whisker_aonyx_rules::diagnostic::Diagnostic;
use whisker_aonyx_rules::parse::parse_rust;
use whisker_aonyx_rules::pub_field::{is_bare_pub, PubField};
use whisker_aonyx_rules::syntax::SyntaxTree;

fn of_kind(tree: &SyntaxTree, kind: &str) -> Vec<usize> {
    (0..tree.len()).filter(|i| tree.node(*i).kind == kind).collect()
}

fn run(source: &str) -> Vec<Diagnostic> {
    let tree = parse_rust(source).expect("parses");
    let rule = PubField;
    let mut out = Vec::new();
    for s in of_kind(&tree, "struct_item") {
        out.extend(rule.check_struct_item(&tree, s));
    }
    out
}

fn says(d: &Diagnostic, text: &str) {
    assert_eq!(d.rule, "lint.pub-field");
    assert!(d.message.contains(text), "{:?} lacks {:?}", d.message, text);
}

#[test]
fn enum_variant_fields_not_flagged() {
    assert!(run("pub enum Gap { Outside { pub root: u32 }, Unreachable(pub u32) }").is_empty());
}

#[test]
fn named_field_diagnostic_spans_the_visibility_modifier() {
    let diagnostics = run("struct Config { pub verbose: u32 }");
    assert_eq!(diagnostics.len(), 1);
    assert_eq!((diagnostics[0].start, diagnostics[0].end), (16, 19));
}

#[test]
fn named_pub_field_flagged() {
    let diagnostics = run("struct Config { pub verbose: u32 }");
    assert_eq!(diagnostics.len(), 1);
    says(&diagnostics[0], "field `verbose` is public");
    says(&diagnostics[0], "getset");
}

#[test]
fn named_pub_fields_each_flagged() {
    let diagnostics = run("struct Config { pub a: u32, b: u32, pub c: u32 }");
    assert_eq!(diagnostics.len(), 2);
    says(&diagnostics[0], "field `a` is public");
    says(&diagnostics[1], "field `c` is public");
}

#[test]
fn nested_struct_in_function_flagged() {
    let diagnostics = run("fn main() { struct Inner { pub a: u32 } }");
    assert_eq!(diagnostics.len(), 1);
    says(&diagnostics[0], "field `a` is public");
}

#[test]
fn newtype_diagnostic_spans_the_visibility_modifier() {
    let diagnostics = run("pub struct ProviderName(pub &'static str);");
    assert_eq!(diagnostics.len(), 1);
    assert_eq!((diagnostics[0].start, diagnostics[0].end), (24, 27));
}

#[test]
fn newtype_pub_field_flagged() {
    let diagnostics = run("pub struct ProviderName(pub &'static str);");
    assert_eq!(diagnostics.len(), 1);
    says(&diagnostics[0], "field 0 is public");
    says(&diagnostics[0], "accessor method");
}

#[test]
fn private_named_field_not_flagged() {
    assert!(run("pub struct Config { verbose: u32 }").is_empty());
}

#[test]
fn private_tuple_field_not_flagged() {
    assert!(run("pub struct RuleId(&'static str);").is_empty());
}

#[test]
fn pub_crate_named_field_not_flagged() {
    assert!(run("struct Config { pub(crate) verbose: u32 }").is_empty());
}

#[test]
fn pub_crate_tuple_field_not_flagged() {
    assert!(run("struct RuleId(pub(crate) &'static str);").is_empty());
}

#[test]
fn pub_function_not_flagged() {
    assert!(run("pub fn foo(x: u32) -> u32 { x }").is_empty());
}

#[test]
fn pub_in_path_tuple_field_not_flagged() {
    assert!(run("struct RuleId(pub(in crate::rules) u32);").is_empty());
}

#[test]
fn pub_super_named_field_not_flagged() {
    assert!(run("struct Config { pub(super) verbose: u32 }").is_empty());
}

#[test]
fn spaced_pub_crate_tuple_field_not_flagged() {
    assert!(run("struct RuleId(pub (crate) u32);").is_empty());
}

#[test]
fn pub_field_trait_send() {
    fn assert_send<T: Send>() {}
    assert_send::<PubField>();
}

#[test]
fn pub_field_trait_sync() {
    fn assert_sync<T: Sync>() {}
    assert_sync::<PubField>();
}

#[test]
fn pub_field_trait_unpin() {
    fn assert_unpin<T: Unpin>() {}
    assert_unpin::<PubField>();
}

#[test]
fn tuple_field_after_attribute_flagged() {
    let diagnostics = run("struct D(#[serde(default)] pub Vec<u32>,);");
    assert_eq!(diagnostics.len(), 1);
    says(&diagnostics[0], "field 0 is public");
}

#[test]
fn tuple_field_after_comment_flagged() {
    let diagnostics = run("struct A(\n    /// the count\n    pub u32,\n    u8,\n);");
    assert_eq!(diagnostics.len(), 1);
    says(&diagnostics[0], "field 0 is public");
}

#[test]
fn tuple_field_with_comma_inside_type_indexed_correctly() {
    let diagnostics = run("struct A(u32, pub Vec<(u8, u8)>, pub fn(u8, u8));");
    assert_eq!(diagnostics.len(), 2);
    says(&diagnostics[0], "field 1 is public");
    says(&diagnostics[1], "field 2 is public");
}

#[test]
fn tuple_field_with_where_clause_flagged() {
    let diagnostics = run("pub struct Wrap<T>(pub T) where T: Copy;");
    assert_eq!(diagnostics.len(), 1);
    says(&diagnostics[0], "field 0 is public");
}

#[test]
fn tuple_pub_field_before_restricted_field_flagged_once() {
    let diagnostics = run("struct B(pub u32, String, pub(crate) i8);");
    assert_eq!(diagnostics.len(), 1);
    says(&diagnostics[0], "field 0 is public");
}

#[test]
fn tuple_pub_fields_report_their_own_index() {
    let diagnostics = run("struct B(u32, pub String, pub u8);");
    assert_eq!(diagnostics.len(), 2);
    says(&diagnostics[0], "field 1 is public");
    says(&diagnostics[1], "field 2 is public");
}

#[test]
fn tuple_struct_with_private_fields_not_flagged() {
    assert!(run("pub struct Span(usize, usize);").is_empty());
}

#[test]
fn union_pub_field_not_flagged() {
    assert!(run("pub union Raw { pub bits: u32 }").is_empty());
}

#[test]
fn unit_struct_not_flagged() {
    assert!(run("pub struct Marker;").is_empty());
}

#[test]
fn whole_messages_of_both_forms() {
    let named = run("struct C { pub level: u8 }");
    assert_eq!(named[0].message, "field `level` is public; make it private and derive a getter with `getset`");
    let ordered = run("struct T(u8, u8, u8, u8, u8, u8, u8, u8, u8, u8, u8, pub u8);");
    assert_eq!(ordered[0].message, "field 11 is public; make it private and add an accessor method");
}

#[test]
fn restricted_visibility_is_no_bare_pub() {
    let tree = parse_rust("struct A { pub a: u8, pub(crate) b: u8 }").expect("parses");
    let mods = of_kind(&tree, "visibility_modifier");
    assert_eq!(mods.len(), 2);
    assert!(is_bare_pub(&tree, mods[0]));
    assert!(!is_bare_pub(&tree, mods[1]));
}
