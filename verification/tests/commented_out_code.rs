use whisker_aonyx_rules::commented_out_code::{
    block_comment_body, classify, grade_body, line_comment_body, probe_source_of, strip_star_margin,
    CommentedOutCode, Fragment,
};
use whisker_aonyx_rules::diagnostic::Diagnostic;
use whisker_aonyx_rules::parse::{parse_rust, parse_rust_without_errors};

fn check(source: &str) -> Vec<Diagnostic> {
    let tree = parse_rust(source).expect("parses");
    let rule = CommentedOutCode::new();
    let mut out = Vec::new();
    for i in 0..tree.len() {
        match tree.node(i).kind.as_str() {
            "line_comment" => out.extend(rule.check_line_comment(&tree, i)),
            "block_comment" => out.extend(rule.check_block_comment(&tree, i)),
            _ => {}
        }
    }
    out
}

#[test]
fn abbreviation_before_a_call_is_not_flagged() {
    assert!(check("// e.g. foo();\nfn f() {}").is_empty());
}

#[test]
fn blank_line_splits_a_comment_run() {
    assert_eq!(check("// let x = 1;\n\n// let y = 2;\nfn f() {}").len(), 2);
}

#[test]
fn block_comment_body_with_empty_comment_returns_empty_body() {
    let body = block_comment_body("/**/").expect("an empty comment is not a doc comment");
    assert_eq!(body, "");
}

#[test]
fn block_comment_body_with_inner_doc_returns_none() {
    assert!(block_comment_body("/*! let x = 1; */").is_none());
}

#[test]
fn block_comment_body_with_outer_doc_returns_none() {
    assert!(block_comment_body("/** let x = 1; */").is_none());
}

#[test]
fn block_comment_body_with_star_margin_drops_the_margin() {
    let body = block_comment_body("/*\n * let x = 1;\n */").expect("this is not a doc comment");
    assert_eq!(body, "\n let x = 1;\n");
}

#[test]
fn block_comment_with_code_is_flagged() {
    assert_eq!(check("/* let x = 1; */\nfn f() {}").len(), 1);
}

#[test]
fn block_comment_with_prose_is_not_flagged() {
    assert!(check("/* This function handles user input */\nfn f() {}").is_empty());
}

#[test]
fn block_doc_comment_with_code_is_not_flagged() {
    assert!(check("/** let x = 1; */\nfn f() {}").is_empty());
}

#[test]
fn boxed_block_comment_with_code_is_flagged() {
    assert_eq!(check("/*\n * let x = 1;\n */\nfn f() {}").len(), 1);
}

#[test]
fn classify_with_bare_call_returns_ambiguous() {
    assert_eq!(classify("foo()"), Fragment::Ambiguous);
}

#[test]
fn classify_with_empty_body_returns_prose() {
    assert_eq!(classify("   "), Fragment::Prose);
}

#[test]
fn classify_with_item_returns_code() {
    assert_eq!(classify("fn old_way() {}"), Fragment::Code);
}

#[test]
fn classify_with_loose_dot_returns_prose() {
    assert_eq!(classify("e.g. foo();"), Fragment::Prose);
}

#[test]
fn classify_with_unparsable_body_returns_prose() {
    assert_eq!(classify("This function handles user input"), Fragment::Prose);
}

#[test]
fn commented_out_attribute_is_flagged() {
    assert_eq!(check("// #[derive(Debug)]\nstruct Foo;").len(), 1);
}

#[test]
fn commented_out_function_is_flagged() {
    let diagnostics = check("// fn old_way() { }\nfn f() {}");
    assert_eq!(diagnostics.len(), 1);
    assert_eq!(diagnostics[0].rule, "lint.commented-out-code");
    assert!(diagnostics[0].message.contains("commented-out code"));
}

#[test]
fn commented_out_let_binding_is_flagged() {
    assert_eq!(check("fn f() {\n    // let x = foo.bar();\n}").len(), 1);
}

#[test]
fn commented_out_macro_call_is_flagged() {
    assert_eq!(check("fn f() {\n    // println!(\"{x}\");\n}").len(), 1);
}

#[test]
fn commented_out_match_arm_is_not_flagged() {
    assert!(check("fn f() {\n    match x {\n        // Foo::Bar => baz(),\n    }\n}").is_empty());
}

#[test]
fn commented_out_use_declaration_is_flagged() {
    assert_eq!(check("// use std::io::Read;\nfn f() {}").len(), 1);
}

#[test]
fn consecutive_comment_lines_report_once() {
    let diagnostics = check("// fn old() {\n//     let x = 1;\n// }\nfn f() {}");
    assert_eq!(diagnostics.len(), 1);
    assert_eq!((diagnostics[0].start, diagnostics[0].end), (0, 36));
}

#[test]
fn doc_comment_with_a_code_example_is_not_flagged() {
    assert!(check("/// ```\n/// let x = 1;\n/// ```\nfn f() {}").is_empty());
}

#[test]
fn empty_comment_is_not_flagged() {
    assert!(check("//\nfn f() {}").is_empty());
}

#[test]
fn inner_doc_comment_with_code_is_not_flagged() {
    assert!(check("//! let x = 1;\nfn f() {}").is_empty());
}

#[test]
fn line_comment_body_with_four_slashes_returns_the_body() {
    let body = line_comment_body("//// let x = 1;").expect("four slashes are not a doc comment");
    assert_eq!(body, "// let x = 1;");
}

#[test]
fn line_comment_body_with_inner_doc_returns_none() {
    assert!(line_comment_body("//! let x = 1;").is_none());
}

#[test]
fn line_comment_body_with_outer_doc_returns_none() {
    assert!(line_comment_body("/// let x = 1;").is_none());
}

#[test]
fn line_comment_body_without_a_marker_returns_none() {
    assert!(line_comment_body("let x = 1;").is_none());
}

#[test]
fn prose_ending_in_a_colon_is_not_flagged() {
    assert!(check("// The rules are as follows:\nfn f() {}").is_empty());
}

#[test]
fn prose_paragraph_is_not_flagged() {
    assert!(check("// This function handles user input\n// and returns the parsed value.\nfn f() {}").is_empty());
}

#[test]
fn prose_that_parses_as_a_cast_is_not_flagged() {
    assert!(check("// Same as above\nfn f() {}").is_empty());
}

#[test]
fn prose_with_a_field_access_is_not_flagged() {
    assert!(check("// WebAssembly.Module\nfn f() {}").is_empty());
}

#[test]
fn register_notation_is_not_flagged() {
    assert!(check("// if cc == 0 { r13 = r12 }\nfn f() {}").is_empty());
}

#[test]
fn separator_comment_is_not_flagged() {
    assert!(check("// ---------------\nfn f() {}").is_empty());
}

#[test]
fn single_identifier_is_not_flagged() {
    assert!(check("// unused\nfn f() {}").is_empty());
}

#[test]
fn terminated_statement_is_flagged() {
    assert_eq!(check("fn f() {\n    // return;\n}").len(), 1);
}

#[test]
fn todo_comment_is_not_flagged() {
    assert!(check("// TODO: rewrite this\nfn f() {}").is_empty());
}

#[test]
fn trailing_comment_does_not_join_the_run_below_it() {
    assert_eq!(check("fn f() {\n    let x = 1; // keep this\n    // let y = 2;\n}").len(), 1);
}

#[test]
fn trailing_commented_out_code_is_flagged() {
    assert_eq!(check("fn f() {\n    let x = 1; // foo();\n}").len(), 1);
}

#[test]
fn commented_out_code_trait_send() {
    fn assert_send<T: Send>() {}
    assert_send::<CommentedOutCode>();
    assert_send::<Fragment>();
}

#[test]
fn commented_out_code_trait_sync() {
    fn assert_sync<T: Sync>() {}
    assert_sync::<CommentedOutCode>();
    assert_sync::<Fragment>();
}

#[test]
fn commented_out_code_trait_unpin() {
    fn assert_unpin<T: Unpin>() {}
    assert_unpin::<CommentedOutCode>();
    assert_unpin::<Fragment>();
}

#[test]
fn url_comment_is_not_flagged() {
    assert!(check("// See https://example.com/foo\nfn f() {}").is_empty());
}

#[test]
fn check_of_odd_comments_never_panics() {
    for text in ["é", "\u{1F600} x;", "*/", "let", "\t\t", "::", "a . b", "\u{0}"] {
        let _ = check(&format!("/* {text} */\nfn f() {{}}\n"));
        let _ = check(&format!("// {text}\nfn f() {{}}\n"));
    }
}

#[test]
fn mixed_margin_keeps_the_body() {
    assert_eq!(strip_star_margin("a\n * b\n c"), "a\n * b\n c");
    assert_eq!(strip_star_margin("a\n * b\n\n *c"), "a\n b\n\nc");
    assert_eq!(strip_star_margin(""), "");
    assert_eq!(strip_star_margin("one line"), "one line");
}

#[test]
fn finding_message_is_whole() {
    let diagnostics = check("// let x = 1;\nfn f() {}");
    assert_eq!(diagnostics[0].message, "remove this commented-out code; version control keeps the history");
}

#[test]
fn probe_source_wraps_the_trimmed_body() {
    assert_eq!(probe_source_of("  let x = 1;  "), "fn __whisker_probe() {\nlet x = 1;\n}\n");
}

#[test]
fn grade_body_follows_the_parse_it_is_given() {
    let body = "let x = compute();";
    let parsed = parse_rust_without_errors(&probe_source_of(body));

    assert_eq!(grade_body(body, &parsed), Fragment::Code);
    assert_eq!(grade_body(body, &None), Fragment::Prose);
    assert_eq!(grade_body("   ", &parsed), Fragment::Prose);
}

#[test]
fn every_parsed_node_holds_its_own_slice_of_the_source() {
    let source = "fn f() { let é = 1; }";
    let tree = parse_rust_without_errors(source).expect("parses");

    assert!(tree.len() > 0);
    for i in 0..tree.len() {
        let node = tree.node(i);
        assert_eq!(node.text, &source[node.start..node.end]);
    }
}
