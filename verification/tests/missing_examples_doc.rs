use whisker_aonyx_rules::diagnostic::Diagnostic;
use whisker_aonyx_rules::missing_examples_doc::{
    has_examples_heading, is_examples_heading, silences_rule, strip_decoration, CodeFence,
    FenceMarker, ItemKind, MissingExamplesDoc,
};
use whisker_aonyx_rules::parse::parse_rust;

fn run(source: &str) -> Vec<Diagnostic> {
    let tree = parse_rust(source).expect("parses");
    let rule = MissingExamplesDoc;
    let mut out = Vec::new();
    for i in 0..tree.len() {
        match tree.node(i).kind.as_str() {
            "const_item" => out.extend(rule.check_const_item(&tree, i)),
            "enum_item" => out.extend(rule.check_enum_item(&tree, i)),
            "function_item" => out.extend(rule.check_function_item(&tree, i)),
            "static_item" => out.extend(rule.check_static_item(&tree, i)),
            "struct_item" => out.extend(rule.check_struct_item(&tree, i)),
            "trait_item" => out.extend(rule.check_trait_item(&tree, i)),
            "type_item" => out.extend(rule.check_type_item(&tree, i)),
            "union_item" => out.extend(rule.check_union_item(&tree, i)),
            _ => {}
        }
    }
    out
}

fn says(d: &Diagnostic, text: &str) {
    assert_eq!(d.rule, "lint.missing-examples-doc");
    assert!(d.message.contains(text), "{:?} lacks {:?}", d.message, text);
}

fn chars(s: &str) -> Vec<char> {
    s.chars().collect()
}

#[test]
fn attribute_between_docs_and_item_is_flagged() {
    assert_eq!(run("/// Docs\n#[derive(Debug)]\npub struct Foo;").len(), 1);
}

#[test]
fn block_doc_comment_with_examples_is_not_flagged() {
    assert!(run("/**\n * Docs\n *\n * # Examples\n */\npub struct Foo;").is_empty());
}

#[test]
fn constant_without_examples_is_flagged() {
    let diagnostics = run("/// Docs\npub const LIMIT: usize = 1;");
    assert_eq!(diagnostics.len(), 1);
    says(&diagnostics[0], "public constant `LIMIT`");
}

#[test]
fn crate_visible_item_is_not_flagged() {
    assert!(run("/// Docs\npub(crate) struct Foo;").is_empty());
}

#[test]
fn doc_alias_attribute_does_not_silence_the_rule() {
    assert_eq!(run("/// Docs\n#[doc(alias = \"bar\")]\npub struct Foo;").len(), 1);
}

#[test]
fn doc_attribute_supplying_text_is_not_flagged() {
    assert!(run("/// Docs\n#[doc = include_str!(\"readme.md\")]\npub struct Foo;").is_empty());
}

#[test]
fn doc_hidden_item_is_not_flagged() {
    assert!(run("/// Docs\n#[doc(hidden)]\npub struct Foo;").is_empty());
}

#[test]
fn enum_without_examples_is_flagged() {
    let diagnostics = run("/// Docs\npub enum Color {\n    Red,\n}");
    assert_eq!(diagnostics.len(), 1);
    says(&diagnostics[0], "public enum `Color`");
}

#[test]
fn examples_heading_after_a_closed_longer_fence_is_not_flagged() {
    let source = "/// Docs\n///\n/// ````\n/// ```\n/// ````\n///\n/// # Examples\n///\n/// ```\n/// ```\npub struct Foo;";
    assert!(run(source).is_empty());
}

#[test]
fn examples_heading_after_a_tilde_line_in_a_backtick_block_is_flagged() {
    let source = "/// Docs\n///\n/// ```\n/// ~~~\n/// # Examples\n/// ```\npub struct Foo;";
    assert_eq!(run(source).len(), 1);
}

#[test]
fn examples_heading_after_an_info_string_fence_is_flagged() {
    let source = "/// Docs\n///\n/// ```rust\n/// ```text\n/// # Examples\n/// ```\npub struct Foo;";
    assert_eq!(run(source).len(), 1);
}

#[test]
fn examples_heading_at_level_two_is_not_flagged() {
    assert!(run("/// Docs\n///\n/// ## Examples\n///\n/// ```\n/// ```\npub struct Foo;").is_empty());
}

#[test]
fn examples_heading_inside_a_longer_fence_is_flagged() {
    let source = "/// Docs\n///\n/// ````\n/// ```\n/// # Examples\n/// ```\n/// ````\npub struct Foo;";
    assert_eq!(run(source).len(), 1);
}

#[test]
fn examples_heading_inside_code_block_is_flagged() {
    assert_eq!(run("/// Docs\n///\n/// ```\n/// # Examples\n/// ```\npub struct Foo;").len(), 1);
}

#[test]
fn examples_heading_without_space_is_flagged() {
    assert_eq!(run("/// Docs\n///\n/// #Examples\npub struct Foo;").len(), 1);
}

#[test]
fn function_in_private_module_is_not_flagged() {
    assert!(run("mod inner {\n    /// Docs\n    pub fn f() {}\n}").is_empty());
}

#[test]
fn function_in_public_module_without_examples_is_flagged() {
    assert_eq!(run("pub mod inner {\n    /// Docs\n    pub fn f() {}\n}").len(), 1);
}

#[test]
fn function_inside_a_function_body_is_not_flagged() {
    assert!(run("pub fn outer() {\n    /// Docs\n    pub fn inner() {}\n}").is_empty());
}

#[test]
fn inherent_impl_public_method_without_examples_is_flagged() {
    let diagnostics = run("impl Foo {\n    /// Docs\n    pub fn f(&self) {}\n}");
    assert_eq!(diagnostics.len(), 1);
    says(&diagnostics[0], "public function `f`");
}

#[test]
fn item_kind_words_are_distinct() {
    let kinds = [
        ItemKind::Constant,
        ItemKind::Enum,
        ItemKind::Function,
        ItemKind::Static,
        ItemKind::Struct,
        ItemKind::Trait,
        ItemKind::TypeAlias,
        ItemKind::Union,
    ];
    let mut words: Vec<&str> = kinds.iter().map(|kind| kind.as_str()).collect();
    words.sort_unstable();
    words.dedup();
    assert_eq!(words.len(), kinds.len());
}

#[test]
fn module_doc_comment_is_not_read_as_item_docs() {
    assert!(run("//! Module docs\n\npub struct Foo;").is_empty());
}

#[test]
fn plain_comment_between_docs_and_item_is_not_flagged() {
    assert!(run("/// Docs\n///\n/// # Examples\n///\n/// ```\n/// ```\n// note\npub struct Foo;").is_empty());
}

#[test]
fn private_item_is_not_flagged() {
    assert!(run("/// Docs\nstruct Foo;").is_empty());
}

#[test]
fn singular_example_heading_is_flagged() {
    assert_eq!(run("/// Docs\n///\n/// # Example\npub struct Foo;").len(), 1);
}

#[test]
fn static_without_examples_is_flagged() {
    let diagnostics = run("/// Docs\npub static NAME: &str = \"x\";");
    assert_eq!(diagnostics.len(), 1);
    says(&diagnostics[0], "public static `NAME`");
}

#[test]
fn struct_with_examples_is_not_flagged() {
    assert!(run("/// Docs\n///\n/// # Examples\n///\n/// ```\n/// ```\npub struct Foo;").is_empty());
}

#[test]
fn struct_without_docs_is_not_flagged() {
    assert!(run("pub struct Foo;").is_empty());
}

#[test]
fn struct_without_examples_is_flagged() {
    let source = "/// Reads a file\n///\n/// # Errors\n///\n/// Fails.\npub struct Foo;";
    let diagnostics = run(source);
    assert_eq!(diagnostics.len(), 1);
    says(&diagnostics[0], "public struct `Foo` has no `# Examples` section");
    assert_eq!((diagnostics[0].start, diagnostics[0].end), (source.len() - 4, source.len() - 1));
}

#[test]
fn trait_impl_method_is_not_flagged() {
    assert!(run("impl Display for Foo {\n    /// Docs\n    fn fmt(&self) {}\n}").is_empty());
}

#[test]
fn trait_member_is_not_flagged() {
    let source = "/// Docs\n///\n/// # Examples\n///\n/// ```\n/// ```\npub trait Read {\n    /// Docs\n    fn read(&self);\n}";
    assert!(run(source).is_empty());
}

#[test]
fn missing_examples_doc_trait_send() {
    fn assert_send<T: Send>() {}
    assert_send::<MissingExamplesDoc>();
    assert_send::<CodeFence>();
    assert_send::<FenceMarker>();
    assert_send::<ItemKind>();
}

#[test]
fn missing_examples_doc_trait_sync() {
    fn assert_sync<T: Sync>() {}
    assert_sync::<MissingExamplesDoc>();
    assert_sync::<CodeFence>();
    assert_sync::<FenceMarker>();
    assert_sync::<ItemKind>();
}

#[test]
fn missing_examples_doc_trait_unpin() {
    fn assert_unpin<T: Unpin>() {}
    assert_unpin::<MissingExamplesDoc>();
    assert_unpin::<CodeFence>();
    assert_unpin::<FenceMarker>();
    assert_unpin::<ItemKind>();
}

#[test]
fn trait_without_examples_is_flagged() {
    let diagnostics = run("/// Docs\npub trait Read {}");
    assert_eq!(diagnostics.len(), 1);
    says(&diagnostics[0], "public trait `Read`");
}

#[test]
fn type_alias_without_examples_is_flagged() {
    let diagnostics = run("/// Docs\npub type Pair = (u8, u8);");
    assert_eq!(diagnostics.len(), 1);
    says(&diagnostics[0], "public type alias `Pair`");
}

#[test]
fn union_without_examples_is_flagged() {
    let diagnostics = run("/// Docs\npub union Bits {\n    a: u8,\n}");
    assert_eq!(diagnostics.len(), 1);
    says(&diagnostics[0], "public union `Bits`");
}

#[test]
fn decoration_strips_the_block_star() {
    assert_eq!(strip_decoration(&chars("   * # Examples  ")), chars("# Examples"));
    assert_eq!(strip_decoration(&chars("  plain ")), chars("plain"));
    assert_eq!(strip_decoration(&chars("*")), chars(""));
}

#[test]
fn examples_heading_levels() {
    assert!(is_examples_heading(&chars("# Examples")));
    assert!(is_examples_heading(&chars("###### Examples  ")));
    assert!(is_examples_heading(&chars("#\tExamples")));
    assert!(!is_examples_heading(&chars("####### Examples")));
    assert!(!is_examples_heading(&chars("#")));
    assert!(!is_examples_heading(&chars("# Examples and more")));
}

#[test]
fn fences_close_only_on_their_own_marker() {
    let open = CodeFence::opening(&chars("````rust")).expect("opens");
    assert_eq!(open.marker, FenceMarker::Backtick);
    assert_eq!(open.length, 4);
    assert!(!open.closes(&chars("```")));
    assert!(!open.closes(&chars("~~~~")));
    assert!(!open.closes(&chars("`````text")));
    assert!(open.closes(&chars("`````  ")));
    assert_eq!(CodeFence::opening(&chars("``")), None);
    assert_eq!(CodeFence::opening(&chars("~~~")).map(|f| f.marker), Some(FenceMarker::Tilde));
}

#[test]
fn heading_scan_over_lines() {
    assert!(has_examples_heading(&["Docs", "", " # Examples"]));
    assert!(!has_examples_heading(&["```", "# Examples", "```"]));
    assert!(!has_examples_heading(&[]));
}

#[test]
fn attributes_that_silence() {
    assert!(silences_rule("#[doc(hidden)]"));
    assert!(silences_rule("# [ doc ( hidden ) ]"));
    assert!(silences_rule("#[doc = \"x\"]"));
    assert!(!silences_rule("#[doc(alias = \"x\")]"));
    assert!(!silences_rule("#[derive(Debug)]"));
}
