use whisker_aonyx_rules::diagnostic::Diagnostic;
use whisker_aonyx_rules::no_inline_comments::{
    classify, comment_content, is_safety_comment, CommentKind, NoInlineComments,
};
use whisker_aonyx_rules::parse::parse_rust;
use whisker_aonyx_rules::syntax::named_child;

fn run(source: &str) -> Vec<Diagnostic> {
    let tree = parse_rust(source).expect("parses");
    let rule = NoInlineComments;
    let mut out = Vec::new();
    for i in 0..tree.len() {
        match tree.node(i).kind.as_str() {
            "line_comment" => out.extend(rule.check_line_comment(&tree, i)),
            "block_comment" => out.extend(rule.check_block_comment(&tree, i)),
            _ => {}
        }
    }
    out
}

fn says(d: &Diagnostic, text: &str) {
    assert_eq!(d.rule, "lint.no-inline-comments");
    assert!(d.message.contains(text), "{:?} lacks {:?}", d.message, text);
}

#[test]
fn classify_with_empty_content_returns_prose() {
    let kind = classify("//");

    assert_eq!(kind, CommentKind::Prose);
}

#[test]
fn classify_with_only_divider_characters_returns_divider() {
    let kind = classify("// ========================");

    assert_eq!(kind, CommentKind::Divider);
}

#[test]
fn classify_with_prose_returns_prose() {
    let kind = classify("// check if the user is valid");

    assert_eq!(kind, CommentKind::Prose);
}

#[test]
fn classify_with_short_wrapping_returns_prose() {
    let kind = classify("// -- x --");

    assert_eq!(kind, CommentKind::Prose);
}

#[test]
fn classify_with_wrapped_heading_returns_divider() {
    let kind = classify("// --- Helper functions ---");

    assert_eq!(kind, CommentKind::Divider);
}

#[test]
fn comment_content_with_block_comment_strips_delimiters() {
    let content = comment_content("/* why */");

    assert_eq!(content, " why ");
}

#[test]
fn comment_content_with_empty_block_comment_returns_empty() {
    let content = comment_content("/**/");

    assert_eq!(content, "");
}

#[test]
fn comment_content_with_line_comment_strips_slashes() {
    let content = comment_content("// why");

    assert_eq!(content, " why");
}

#[test]
fn is_safety_comment_with_lowercase_marker_returns_true() {
    let is_safety = is_safety_comment("// safety: clippy accepts any case");

    assert!(is_safety);
}

#[test]
fn is_safety_comment_with_marker_after_prose_returns_false() {
    let is_safety = is_safety_comment("// the caller checks it. SAFETY: it is aligned");

    assert!(!is_safety);
}

#[test]
fn is_safety_comment_with_no_colon_returns_false() {
    let is_safety = is_safety_comment("// SAFETY is the reason for this check");

    assert!(!is_safety);
}

#[test]
fn is_safety_comment_with_uppercase_marker_returns_true() {
    let is_safety = is_safety_comment("// SAFETY: the caller upholds the invariant");

    assert!(is_safety);
}

#[test]
fn classify_with_a_block_divider_returns_divider() {
    assert_eq!(classify("/* ***** */"), CommentKind::Divider);
    assert_eq!(classify("/* ## Section ## */"), CommentKind::Prose);
}

#[test]
fn is_safety_comment_in_a_block_comment_returns_true() {
    assert!(is_safety_comment("/* Safety: bounds checked above */"));
    assert!(!is_safety_comment("/* SAFE */"));
}

#[test]
fn blank_line_between_comments_splits_the_run() {
    assert_eq!(run("use std::fmt;\n// first\n\n// second\nfn f() {}").len(), 2);
}

#[test]
fn block_comment_is_flagged() {
    assert_eq!(run("fn f() { /* why */ }").len(), 1);
}

#[test]
fn comment_above_a_safety_comment_is_flagged_alone() {
    let source = "fn f() {\n    // an ordinary note\n    // SAFETY: the caller checks the pointer\n    unsafe { g() }\n}";
    let diagnostics = run(source);
    assert_eq!(diagnostics.len(), 1);
    let start = source.find("// an").expect("source contains the note");
    assert_eq!((diagnostics[0].start, diagnostics[0].end), (start, start + "// an ordinary note".len()));
}

#[test]
fn comment_after_a_doc_comment_is_flagged() {
    assert_eq!(run("/// Documents the function\n// but this does not\nfn f() {}").len(), 1);
}

#[test]
fn comment_after_the_file_header_is_flagged() {
    let diagnostics = run("// Copyright 2026 The Whisker Authors\n\n// an ordinary comment\nfn f() {}");
    assert_eq!(diagnostics.len(), 1);
    says(&diagnostics[0], "doc comment");
}

#[test]
fn comment_before_a_doc_comment_is_reported_once() {
    assert_eq!(run("use std::fmt;\n// plain\n/// Documents the function\nfn f() {}").len(), 1);
}

#[test]
fn comment_below_module_docs_is_flagged() {
    assert_eq!(run("//! Documents the module\n// an ordinary comment\nfn f() {}").len(), 1);
}

#[test]
fn comment_run_reports_its_whole_span() {
    let source = "fn f() {\n    // first\n    // second\n}";
    let diagnostics = run(source);
    assert_eq!(diagnostics.len(), 1);
    let start = source.find("// first").expect("source contains the first line");
    let end = source.find("// second").expect("source contains the second line") + "// second".len();
    assert_eq!((diagnostics[0].start, diagnostics[0].end), (start, end));
}

#[test]
fn consecutive_comments_at_module_level_are_reported_once() {
    assert_eq!(run("use std::fmt;\n// first\n// second\n// third\nfn f() {}").len(), 1);
}

#[test]
fn consecutive_comments_in_a_function_body_are_reported_once() {
    assert_eq!(run("fn f() {\n    // first\n    // second\n    // third\n}").len(), 1);
}

#[test]
fn consecutive_comments_in_a_match_body_are_reported_once() {
    let source = "fn f() {\n    match x {\n        // first\n        // second\n        A => {}\n    }\n}";
    assert_eq!(run(source).len(), 1);
}

#[test]
fn consecutive_comments_in_a_struct_body_are_reported_once() {
    let source = "struct S {\n    a: u32,\n    // first\n    // second\n    b: u32,\n}";
    assert_eq!(run(source).len(), 1);
}

#[test]
fn divider_is_reported_as_a_section_divider() {
    let diagnostics = run("use std::fmt;\n// ========================\nfn f() {}");
    assert_eq!(diagnostics.len(), 1);
    says(&diagnostics[0], "section divider");
}

#[test]
fn doc_comment_on_a_function_is_not_flagged() {
    assert!(run("/// Returns nothing\n///\n/// More detail here.\nfn f() {}").is_empty());
}

#[test]
fn empty_outer_doc_comment_is_not_flagged() {
    assert!(run("///\nfn f() {}").is_empty());
}

#[test]
fn file_header_block_comment_is_not_flagged() {
    assert!(run("/* Copyright 2026 The Whisker Authors */\n\nfn f() {}").is_empty());
}

#[test]
fn file_header_comment_is_not_flagged() {
    let source = "// Copyright 2026 The Whisker Authors\n// SPDX-License-Identifier: Apache-2.0\n\nuse std::fmt;\n\nfn f() {}";
    assert!(run(source).is_empty());
}

#[test]
fn four_slash_comment_is_flagged() {
    assert_eq!(run("use std::fmt;\n////not a doc comment\nfn f() {}").len(), 1);
}

#[test]
fn inner_block_doc_comment_is_not_flagged() {
    assert!(run("/*! Documents the module */\nfn f() {}").is_empty());
}

#[test]
fn inner_doc_comment_is_not_flagged() {
    assert!(run("//! Documents the module\nfn f() {}").is_empty());
}

#[test]
fn module_level_comment_is_flagged() {
    let diagnostics = run("use std::fmt;\n// helpers live below\nfn f() {}");
    assert_eq!(diagnostics.len(), 1);
    says(&diagnostics[0], "doc comment");
}

#[test]
fn ordinary_comment_that_opens_the_file_is_not_flagged() {
    assert!(run("// check the user\nfn f() {}").is_empty());
}

#[test]
fn outer_block_doc_comment_is_not_flagged() {
    assert!(run("/** Documents the function */\nfn f() {}").is_empty());
}

#[test]
fn plain_comment_in_a_function_body_is_flagged() {
    assert_eq!(run("fn f() {\n    // check the user\n    g();\n}").len(), 1);
}

#[test]
fn safety_block_comment_is_not_flagged() {
    assert!(run("fn f() {\n    /* SAFETY: the caller upholds the invariant */\n    unsafe { g() }\n}").is_empty());
}

#[test]
fn safety_comment_is_not_flagged() {
    assert!(run("fn f() {\n    // SAFETY: the pointer comes from a reference\n    unsafe { g() }\n}").is_empty());
}

#[test]
fn safety_comment_with_a_continuation_line_is_not_flagged() {
    let source = "fn f() {\n    // SAFETY: the pointer comes from a reference,\n    // so it is aligned and non-null\n    unsafe { g() }\n}";
    assert!(run(source).is_empty());
}

#[test]
fn section_header_is_reported_as_a_section_divider() {
    let diagnostics = run("use std::fmt;\n// --- Helper functions ---\nfn f() {}");
    assert_eq!(diagnostics.len(), 1);
    says(&diagnostics[0], "section divider");
}

#[test]
fn slashes_inside_a_doc_comment_are_not_flagged() {
    assert!(run("/// Shows a body like `// ...` in an example\nfn f() {}").is_empty());
}

#[test]
fn slashes_inside_a_string_literal_are_not_flagged() {
    assert!(run("fn f() {\n    let s = \"// not a comment\";\n}").is_empty());
}

#[test]
fn source_without_comments_is_not_flagged() {
    assert!(run("fn f() {\n    let x = 1;\n}").is_empty());
}

#[test]
fn statement_between_comments_splits_the_run() {
    assert_eq!(run("fn f() {\n    // first\n    g();\n    // second\n}").len(), 2);
}

#[test]
fn text_of_with_an_offset_parent_returns_the_node_source() {
    let tree = parse_rust("fn f() {\n    let x = 1;\n}").expect("parses");
    let function = named_child(&tree, 0, 0).expect("the source has one function");
    let block = named_child(&tree, function, 2).expect("the function has a body");
    let statement = named_child(&tree, block, 0).expect("the body has a statement");
    assert_eq!(tree.node(statement).text, "let x = 1;");
}

#[test]
fn trailing_comment_is_flagged() {
    assert_eq!(run("fn f() {\n    let x = 1; // why\n}").len(), 1);
}

#[test]
fn no_inline_comments_trait_send() {
    fn assert_send<T: Send>() {}
    assert_send::<NoInlineComments>();
    assert_send::<CommentKind>();
}

#[test]
fn no_inline_comments_trait_sync() {
    fn assert_sync<T: Sync>() {}
    assert_sync::<NoInlineComments>();
    assert_sync::<CommentKind>();
}

#[test]
fn no_inline_comments_trait_unpin() {
    fn assert_unpin<T: Unpin>() {}
    assert_unpin::<NoInlineComments>();
    assert_unpin::<CommentKind>();
}

#[test]
fn whole_messages_of_both_kinds() {
    let prose = run("use a;\n// note\nfn f() {}");
    assert_eq!(prose[0].message, "remove this comment or move what it explains into a doc comment");
    let divider = run("use a;\n// ----\nfn f() {}");
    assert_eq!(divider[0].message, "remove this section divider");
}
