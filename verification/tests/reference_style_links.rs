use whisker_aonyx_rules::parse::parse_rust;
use whisker_aonyx_rules::reference_style_links::doc_block::from_comments;
use whisker_aonyx_rules::reference_style_links::inline_link::{InlineLink, LinkKind};
use whisker_aonyx_rules::reference_style_links::doc_block::DocBlock;
use whisker_aonyx_rules::reference_style_links::{DocMarker, ReferenceStyleLinks};
use whisker_aonyx_rules::syntax::SyntaxTree;

fn kinds(content: &str) -> Vec<LinkKind> {
    InlineLink::find_all(content)
        .into_iter()
        .map(InlineLink::kind)
        .collect()
}

fn texts(content: &str) -> Vec<&str> {
    InlineLink::find_all(content)
        .into_iter()
        .map(|link| &content[link.start()..link.end()])
        .collect()
}

fn comments(tree: &SyntaxTree) -> Vec<usize> {
    (0..tree.len())
        .filter(|i| {
            let kind = tree.node(*i).kind.as_str();
            kind == "line_comment" || kind == "block_comment"
        })
        .collect()
}

fn run(source: &str) -> Vec<(String, usize, usize)> {
    let tree = parse_rust(source).expect("the source should parse");
    let rule = ReferenceStyleLinks;
    let mut found = Vec::new();
    for node in comments(&tree) {
        let diagnostics = match tree.node(node).kind.as_str() {
            "block_comment" => rule.check_block_comment(&tree, node),
            _ => rule.check_line_comment(&tree, node),
        };
        for diagnostic in diagnostics {
            assert_eq!(diagnostic.rule, "lint.reference-style-links");
            found.push((diagnostic.message, diagnostic.start, diagnostic.end));
        }
    }
    found
}

#[test]
fn find_all_with_angle_bracket_destination_matches() {
    let content = "See [the docs](<https://example.com/a b>) now";

    let found = texts(content);

    assert_eq!(found, vec!["[the docs](<https://example.com/a b>)"]);
}

#[test]
fn find_all_with_autolink_finds_nothing() {
    let content = "See <https://example.com/docs> for details";

    let found = texts(content);

    assert!(found.is_empty());
}

#[test]
fn find_all_with_backslash_escaped_bracket_finds_nothing() {
    let content = "Literal \\[text\\](url) stays literal";

    let found = texts(content);

    assert!(found.is_empty());
}

#[test]
fn find_all_with_balanced_parens_in_destination_matches_whole_link() {
    let content = "See [x](https://example.com/a_(b)_c) now";

    let found = texts(content);

    assert_eq!(found, vec!["[x](https://example.com/a_(b)_c)"]);
}

#[test]
fn find_all_with_bare_url_finds_nothing() {
    let content = "See https://example.com/docs for details";

    let found = texts(content);

    assert!(found.is_empty());
}

#[test]
fn find_all_with_blank_line_between_bracket_and_paren_finds_nothing() {
    let content = "See [foo]\n\n(a parenthetical)";

    let found = texts(content);

    assert!(found.is_empty());
}

#[test]
fn find_all_with_bracket_inside_code_span_finds_nothing() {
    let content = "Write `[text](url)` to make a link";

    let found = texts(content);

    assert!(found.is_empty());
}

#[test]
fn find_all_with_code_span_in_link_text_matches() {
    let content = "Uses [`HashMap`](std::collections::HashMap) internally";

    let found = texts(content);

    assert_eq!(found, vec!["[`HashMap`](std::collections::HashMap)"]);
}

#[test]
fn find_all_with_collapsed_reference_link_finds_nothing() {
    let content = "See [the docs][] for details";

    let found = texts(content);

    assert!(found.is_empty());
}

#[test]
fn find_all_with_empty_destination_matches() {
    let content = "See [the docs]() for details";

    let found = texts(content);

    assert_eq!(found, vec!["[the docs]()"]);
}

#[test]
fn find_all_with_empty_input_finds_nothing() {
    let content = "";

    let found = texts(content);

    assert!(found.is_empty());
}

#[test]
fn find_all_with_fenced_block_after_prose_reads_the_prose() {
    let content = "See [a](b) here\n\n```rust\nlet x = [c](d);\n```";

    let found = texts(content);

    assert_eq!(found, vec!["[a](b)"]);
}

#[test]
fn find_all_with_fenced_block_finds_nothing() {
    let content = "# Examples\n\n```\nlet url = [text](https://example.com);\n```";

    let found = texts(content);

    assert!(found.is_empty());
}

#[test]
fn find_all_with_full_reference_link_finds_nothing() {
    let content = "See [the docs][docs] for details";

    let found = texts(content);

    assert!(found.is_empty());
}

#[test]
fn find_all_with_image_link_reports_an_image() {
    let content = "![diagram](https://example.com/diagram.png)";

    let found = kinds(content);

    assert_eq!(found, vec![LinkKind::Image]);
}

#[test]
fn find_all_with_indented_code_block_finds_nothing() {
    let content = "Example:\n\n    let url = [text](https://example.com);\n";

    let found = texts(content);

    assert!(found.is_empty());
}

#[test]
fn find_all_with_inline_link_reports_a_text_link() {
    let content = "See [the docs](https://example.com/docs) for details";

    let found = kinds(content);

    assert_eq!(found, vec![LinkKind::Text]);
}

#[test]
fn find_all_with_link_split_across_lines_matches() {
    let content = "See [the\ndocs](https://example.com) for details";

    let found = texts(content);

    assert_eq!(found, vec!["[the\ndocs](https://example.com)"]);
}

#[test]
fn find_all_with_nested_brackets_matches_the_inner_link() {
    let content = "Text [outer [inner](https://example.com)] tail";

    let found = texts(content);

    assert_eq!(found, vec!["[inner](https://example.com)"]);
}

#[test]
fn find_all_with_non_ascii_after_backslash_finds_the_link() {
    let content = "Caf\\é [a](b) tail";

    let found = texts(content);

    assert_eq!(found, vec!["[a](b)"]);
}

#[test]
fn find_all_with_reference_definition_finds_nothing() {
    let content = "See [the docs]\n\n[the docs]: https://example.com/docs";

    let found = texts(content);

    assert!(found.is_empty());
}

#[test]
fn find_all_with_shortcut_reference_link_finds_nothing() {
    let content = "Returns [`Option<T>`] if the value exists";

    let found = texts(content);

    assert!(found.is_empty());
}

#[test]
fn find_all_with_space_before_paren_finds_nothing() {
    let content = "See [the docs] (https://example.com/docs)";

    let found = texts(content);

    assert!(found.is_empty());
}

#[test]
fn find_all_with_tilde_fence_finds_nothing() {
    let content = "~~~\n[text](https://example.com)\n~~~";

    let found = texts(content);

    assert!(found.is_empty());
}

#[test]
fn find_all_with_titled_link_matches_whole_link() {
    let content = "See [x](https://example.com \"a title\") now";

    let found = texts(content);

    assert_eq!(found, vec!["[x](https://example.com \"a title\")"]);
}

#[test]
fn find_all_with_two_links_on_one_line_matches_both() {
    let content = "See [a](https://example.com/a) and [b](https://example.com/b)";

    let found = texts(content);

    assert_eq!(
        found,
        vec!["[a](https://example.com/a)", "[b](https://example.com/b)"]
    );
}

#[test]
fn find_all_with_unclosed_bracket_finds_nothing() {
    let content = "See [the docs for details";

    let found = texts(content);

    assert!(found.is_empty());
}

#[test]
fn find_all_with_unclosed_fence_skips_the_rest() {
    let content = "Prose [a](b)\n\n```\n[c](d)\nstill code";

    let found = texts(content);

    assert_eq!(found, vec!["[a](b)"]);
}

#[test]
fn find_all_with_unmatched_backtick_finds_the_link() {
    let content = "A stray ` tick then [a](https://example.com)";

    let found = texts(content);

    assert_eq!(found, vec!["[a](https://example.com)"]);
}

#[test]
fn find_all_with_word_after_destination_finds_nothing() {
    let content = "The value [x](y z) is undefined";

    let found = texts(content);

    assert!(found.is_empty());
}

#[test]
fn message_for_image_names_an_image_link() {
    let kind = LinkKind::Image;

    let message = kind.message();

    assert!(message.contains("inline image link"));
}

#[test]
fn message_for_text_names_a_link() {
    let kind = LinkKind::Text;

    let message = kind.message();

    assert!(message.contains("inline link"));
}

#[test]
fn content_joins_consecutive_lines() {
    let tree = parse_rust("/// first\n/// second\nfn f() {}").expect("parses");
    let nodes = comments(&tree);

    let block = from_comments(&tree, &nodes).expect("should build a block");

    assert_eq!(block.content(), "first\nsecond");
}

#[test]
fn content_keeps_extra_indentation() {
    let tree = parse_rust("/// a\n///     b\nfn f() {}").expect("parses");
    let nodes = comments(&tree);

    let block = from_comments(&tree, &nodes).expect("should build a block");

    assert_eq!(block.content(), "a\n    b");
}

#[test]
fn from_comments_with_empty_slice_returns_none() {
    let tree = parse_rust("fn f() {}").expect("parses");
    let nodes: Vec<usize> = Vec::new();

    let block = from_comments(&tree, &nodes);

    assert!(block.is_none());
}

#[test]
fn from_comments_with_plain_comment_returns_none() {
    let tree = parse_rust("// plain\nfn f() {}").expect("parses");
    let nodes = comments(&tree);

    let block = from_comments(&tree, &nodes);

    assert!(block.is_none());
}

#[test]
fn span_maps_an_offset_on_a_later_line() {
    let source = "/// first\n/// second\nfn f() {}";
    let tree = parse_rust(source).expect("parses");
    let nodes = comments(&tree);
    let block = from_comments(&tree, &nodes).expect("should build a block");

    let (start, end) = block.span(6, 12);

    assert_eq!(&source[start..end], "second");
}

#[test]
fn span_maps_an_offset_on_the_first_line() {
    let source = "/// first\n/// second\nfn f() {}";
    let tree = parse_rust(source).expect("parses");
    let nodes = comments(&tree);
    let block = from_comments(&tree, &nodes).expect("should build a block");

    let (start, end) = block.span(0, 5);

    assert_eq!(&source[start..end], "first");
}

#[test]
fn inline_link_reports_the_span_of_the_link() {
    let source = "/// See [a](https://example.com) now\nfn f() {}";

    let found = run(source);

    assert_eq!(found.len(), 1);
    assert_eq!(&source[found[0].1..found[0].2], "[a](https://example.com)");
    assert_eq!(found[0].0, "replace this inline link with a reference-style link");
}

#[test]
fn link_across_two_doc_comment_lines_is_flagged_once() {
    let source = "/// See [the\n/// docs](https://example.com) now\nfn f() {}";

    assert_eq!(run(source).len(), 1);
}

#[test]
fn plain_and_fenced_links_are_not_flagged() {
    assert!(run("// See [a](https://example.com)\nfn f() {}").is_empty());
    assert!(run("/* See [a](https://example.com) */\nfn f() {}").is_empty());
    assert!(run("/// # Examples\n///\n/// ```\n/// let a = \"[x](https://example.com)\";\n/// ```\nfn f() {}").is_empty());
}

#[test]
fn plain_comment_between_doc_lines_splits_the_blocks() {
    let source = "/// ```\n// break\n/// [a](https://example.com)\nfn f() {}";

    assert_eq!(run(source).len(), 1);
}

#[test]
fn image_and_block_doc_comments_are_flagged() {
    let found = run("/** See ![a](https://example.com/a.png) now */\nfn f() {}");

    assert_eq!(found.len(), 1);
    assert_eq!(found[0].0, "replace this inline image link with a reference-style image link");
}

#[test]
fn attribute_doc_is_not_flagged() {
    let found = run("#[doc = \"See [a](https://example.com)\"]\nfn f() {}");
    assert!(found.is_empty());
}

#[test]
fn block_doc_comment_with_inline_link_is_flagged() {
    let found = run("/** See [a](https://example.com) now */\nfn f() {}");
    assert_eq!(found.len(), 1);
}

#[test]
fn field_doc_comment_with_inline_link_is_flagged_once() {
    let found = run("struct S {\n    /// See\n    /// [a](https://example.com)\n    field: u32,\n}");
    assert_eq!(found.len(), 1);
}

#[test]
fn image_link_is_flagged_as_an_image() {
    let found = run("/// ![diagram](https://example.com/d.png)\nfn f() {}");
    assert_eq!(found.len(), 1);
    assert!(found[0].0.contains("image"));
}

#[test]
fn inline_intra_doc_link_is_flagged() {
    let found = run("/// Uses [`HashMap`](std::collections::HashMap) internally\nfn f() {}");
    assert_eq!(found.len(), 1);
}

#[test]
fn inline_link_in_doc_comment_is_flagged() {
    let found = run("/// See [the docs](https://example.com/docs) for details\nfn f() {}");
    assert_eq!(found.len(), 1);
    assert!(found[0].0.contains("reference-style link"));
}

#[test]
fn inline_link_in_plain_block_comment_is_not_flagged() {
    let found = run("/* See [a](https://example.com) */\nfn f() {}");
    assert!(found.is_empty());
}

#[test]
fn inline_link_in_plain_comment_is_not_flagged() {
    let found = run("// See [a](https://example.com)\nfn f() {}");
    assert!(found.is_empty());
}

#[test]
fn inner_and_outer_doc_comments_are_separate_blocks() {
    let found = run("//! ```\n/// [a](https://example.com)\nfn f() {}");
    assert_eq!(found.len(), 1);
}

#[test]
fn inner_doc_comment_with_inline_link_is_flagged() {
    let found = run("//! See [a](https://example.com)\nfn f() {}");
    assert_eq!(found.len(), 1);
}

#[test]
fn link_in_code_span_is_not_flagged() {
    let found = run("/// Write `[text](url)` for a link\nfn f() {}");
    assert!(found.is_empty());
}

#[test]
fn link_in_fenced_example_is_not_flagged() {
    let found = run("/// # Examples\n///\n/// ```\n/// let a = \"[x](https://example.com)\";\n/// ```\nfn f() {}");
    assert!(found.is_empty());
}

#[test]
fn reference_definition_is_not_flagged() {
    let found = run("/// See [the docs]\n///\n/// [the docs]: https://example.com/docs\nfn f() {}");
    assert!(found.is_empty());
}

#[test]
fn shortcut_reference_link_is_not_flagged() {
    let found = run("/// Returns [`Option<T>`] if the value exists\n///\n/// [`Option<T>`]: std::option::Option\nfn f() {}");
    assert!(found.is_empty());
}

#[test]
fn two_doc_comments_each_report_their_link() {
    let found = run("/// [a](https://example.com/a)\nfn f() {}\n\n/// [b](https://example.com/b)\nfn g() {}");
    assert_eq!(found.len(), 2);
}

#[test]
fn two_links_in_one_doc_comment_report_twice() {
    let found = run("/// See [a](https://example.com/a)\n/// and [b](https://example.com/b)\nfn f() {}");
    assert_eq!(found.len(), 2);
}

#[test]
fn reference_style_links_trait_send() {
    fn assert_send<T: Send>() {}
    assert_send::<DocMarker>();
    assert_send::<ReferenceStyleLinks>();
}

#[test]
fn reference_style_links_trait_sync() {
    fn assert_sync<T: Sync>() {}
    assert_sync::<DocMarker>();
    assert_sync::<ReferenceStyleLinks>();
}

#[test]
fn reference_style_links_trait_unpin() {
    fn assert_unpin<T: Unpin>() {}
    assert_unpin::<DocMarker>();
    assert_unpin::<ReferenceStyleLinks>();
}

#[test]
fn doc_block_trait_send() {
    fn assert_send<T: Send>() {}
    assert_send::<DocBlock<'_>>();
}

#[test]
fn doc_block_trait_sync() {
    fn assert_sync<T: Sync>() {}
    assert_sync::<DocBlock<'_>>();
}

#[test]
fn doc_block_trait_unpin() {
    fn assert_unpin<T: Unpin>() {}
    assert_unpin::<DocBlock<'_>>();
}

#[test]
fn inline_link_trait_send() {
    fn assert_send<T: Send>() {}
    assert_send::<InlineLink>();
    assert_send::<LinkKind>();
}

#[test]
fn inline_link_trait_sync() {
    fn assert_sync<T: Sync>() {}
    assert_sync::<InlineLink>();
    assert_sync::<LinkKind>();
}

#[test]
fn inline_link_trait_unpin() {
    fn assert_unpin<T: Unpin>() {}
    assert_unpin::<InlineLink>();
    assert_unpin::<LinkKind>();
}
