use whisker_aonyx_rules::derive_order::{
    compute_expected_order, extract_derive_names, macro_name, std_derive_index, DeriveOrder,
};
use whisker_aonyx_rules::diagnostic::Diagnostic;
use whisker_aonyx_rules::parse::parse_rust;

fn run(source: &str) -> Vec<Diagnostic> {
    let tree = parse_rust(source).expect("parses");
    let rule = DeriveOrder;
    let mut out = Vec::new();
    for i in 0..tree.len() {
        if tree.node(i).kind == "attribute_item" {
            out.extend(rule.check_attribute_item(&tree, i));
        }
    }
    out
}

fn assert_flagged(diagnostics: &[Diagnostic], expected: &str) {
    assert_eq!(diagnostics.len(), 1);
    assert_eq!(diagnostics[0].rule, "lint.derive-order");
    assert!(
        diagnostics[0].message.contains(expected),
        "message {:?} lacks {:?}",
        diagnostics[0].message,
        expected
    );
}

fn strings(values: &[&str]) -> Vec<String> {
    values.iter().map(|v| (*v).to_owned()).collect()
}

#[test]
fn correct_full_std_order_not_flagged() {
    let diagnostics = run(
        "#[derive(Copy, Clone, Eq, PartialEq, Ord, PartialOrd, Hash, Debug, Default)]\nstruct Foo;",
    );
    assert!(diagnostics.is_empty());
}

#[test]
fn correct_partial_std_order_not_flagged() {
    let diagnostics = run("#[derive(Clone, Debug)]\nstruct Foo;");
    assert!(diagnostics.is_empty());
}

#[test]
fn correct_std_then_third_party_not_flagged() {
    let diagnostics = run("#[derive(Clone, Debug, Builder, Getters)]\nstruct Foo;");
    assert!(diagnostics.is_empty());
}

#[test]
fn correct_third_party_alphabetical_not_flagged() {
    let diagnostics = run("#[derive(Clone, Debug, Alpha, Beta, Gamma)]\nstruct Foo;");
    assert!(diagnostics.is_empty());
}

#[test]
fn empty_derive_not_flagged() {
    let diagnostics = run("#[derive()]\nstruct Foo;");
    assert!(diagnostics.is_empty());
}

#[test]
fn non_derive_attribute_not_flagged() {
    let diagnostics = run("#[allow(dead_code)]\nstruct Foo;");
    assert!(diagnostics.is_empty());
}

#[test]
fn single_derive_not_flagged() {
    let diagnostics = run("#[derive(Debug)]\nstruct Foo;");
    assert!(diagnostics.is_empty());
}

#[test]
fn third_party_before_std_flagged() {
    let diagnostics = run("#[derive(Builder, Clone, Debug)]\nstruct Foo;");
    assert_flagged(&diagnostics, "Clone, Debug, Builder");
}

#[test]
fn third_party_out_of_alpha_order_flagged() {
    let diagnostics = run("#[derive(Clone, Debug, Gamma, Alpha)]\nstruct Foo;");
    assert_flagged(&diagnostics, "Alpha, Gamma");
}

#[test]
fn derive_order_trait_send() {
    fn assert_send<T: Send>() {}
    assert_send::<DeriveOrder>();
}

#[test]
fn derive_order_trait_sync() {
    fn assert_sync<T: Sync>() {}
    assert_sync::<DeriveOrder>();
}

#[test]
fn derive_order_trait_unpin() {
    fn assert_unpin<T: Unpin>() {}
    assert_unpin::<DeriveOrder>();
}

#[test]
fn wrong_std_and_third_party_flagged() {
    let diagnostics = run("#[derive(Debug, Clone, Beta, Alpha)]\nstruct Foo;");
    assert_flagged(&diagnostics, "Clone, Debug, Alpha, Beta");
}

#[test]
fn wrong_std_order_flagged() {
    let diagnostics = run("#[derive(Debug, Clone, Default)]\nstruct Foo;");
    assert_flagged(&diagnostics, "Clone, Debug, Default");
}

#[test]
fn wrong_std_order_multiple_flagged() {
    let diagnostics = run("#[derive(Default, Copy, Clone)]\nstruct Foo;");
    assert_flagged(&diagnostics, "Copy, Clone, Default");
}

#[test]
fn whole_message_and_span_of_a_misordered_list() {
    let source = "#[derive(Debug, Clone)]\nstruct Foo;";
    let diagnostics = run(source);
    assert_eq!(diagnostics.len(), 1);
    assert_eq!(
        diagnostics[0].message,
        "derive macros are not in canonical order; expected: Clone, Debug"
    );
    assert_eq!(diagnostics[0].start, 0);
    assert_eq!(diagnostics[0].end, "#[derive(Debug, Clone)]".len());
}

#[test]
fn std_derive_index_gives_prescribed_positions() {
    assert_eq!(std_derive_index("Copy"), Some(0));
    assert_eq!(std_derive_index("PartialOrd"), Some(5));
    assert_eq!(std_derive_index("Default"), Some(8));
    assert_eq!(std_derive_index("Serialize"), None);
    assert_eq!(std_derive_index("copy"), None);
}

#[test]
fn macro_name_takes_the_last_path_segment() {
    assert_eq!(macro_name("serde::Serialize"), "Serialize");
    assert_eq!(macro_name("a::b::C"), "C");
    assert_eq!(macro_name("Debug"), "Debug");
}

#[test]
fn extract_derive_names_trims_each_name() {
    assert_eq!(
        extract_derive_names("  #[derive( Debug ,Clone,  serde::Serialize )]  "),
        Some(strings(&["Debug", "Clone", "serde::Serialize"]))
    );
    assert_eq!(extract_derive_names("#[derive(   )]"), None);
    assert_eq!(extract_derive_names("#[allow(unused)]"), None);
    assert_eq!(extract_derive_names("#[derive(Debug)"), None);
}

#[test]
fn expected_order_keeps_std_first_and_sorts_the_rest_case_insensitively() {
    let names = strings(&["beta", "Debug", "Alpha", "std::clone::Clone", "gamma"]);
    assert_eq!(
        compute_expected_order(&names),
        strings(&["std::clone::Clone", "Debug", "Alpha", "beta", "gamma"])
    );
}

#[test]
fn expected_order_keeps_equal_keys_in_their_order() {
    let names = strings(&["b", "A", "a", "B", "Clone", "core::clone::Clone"]);
    assert_eq!(
        compute_expected_order(&names),
        strings(&["Clone", "core::clone::Clone", "A", "a", "b", "B"])
    );
}

#[test]
fn expected_order_lists_every_name_once() {
    let names = strings(&["Debug", "serde::Serialize", "Clone", "Alpha", "Clone"]);

    let expected = compute_expected_order(&names);

    let mut a = names.clone();
    let mut b = expected.clone();
    a.sort();
    b.sort();
    assert_eq!(a, b);
    assert_eq!(expected, strings(&["Clone", "Clone", "Debug", "Alpha", "serde::Serialize"]));
}

#[test]
fn canonical_list_is_its_own_expected_order() {
    let names = strings(&["Copy", "Clone", "Debug", "Alpha", "beta", "Gamma"]);

    assert_eq!(compute_expected_order(&names), names);
}
