use whisker_aonyx_rules::diagnostic::Diagnostic;
use whisker_aonyx_rules::no_todo_comments::{find_markers, is_word_break, FoundMarker, NoTodoComments};
use whisker_aonyx_rules::parse::parse_rust;

fn run(source: &str) -> Vec<Diagnostic> {
    let tree = parse_rust(source).expect("parses");
    let rule = NoTodoComments;
    let mut out = Vec::new();
    for i in 0..tree.len() {
        match tree.node(i).kind.as_str() {
            "line_comment" => out.extend(rule.check_line_comment(&tree, i)),
            "block_comment" => out.extend(rule.check_block_comment(&tree, i)),
            _ => {}
        }
    }
    out
}

fn span(d: &Diagnostic) -> (usize, usize) {
    (d.start, d.end)
}

#[test]
fn find_markers_with_inner_comment_punctuation_returns_empty() {
    let markers = find_markers("/// // TODO: refactor this later");

    assert!(markers.is_empty());
}

#[test]
fn find_markers_with_lowercase_marker_returns_empty() {
    let markers = find_markers("// todo: refactor this later");

    assert!(markers.is_empty());
}

#[test]
fn find_markers_with_marker_after_text_returns_empty() {
    let markers = find_markers("// see the TODO in the tracker");

    assert!(markers.is_empty());
}

#[test]
fn find_markers_with_marker_at_end_of_text_returns_marker() {
    let markers = find_markers("// XXX");

    assert_eq!(
        markers,
        vec![FoundMarker {
            offset: 3,
            marker: "XXX",
        }]
    );
}

#[test]
fn find_markers_with_marker_prefix_of_word_returns_empty() {
    let markers = find_markers("// TODOS live in the tracker\n// XXXX\n// HACKY");

    assert!(markers.is_empty());
}

#[test]
fn find_markers_with_no_delimiter_returns_marker() {
    let markers = find_markers("//TODO: fix");

    assert_eq!(
        markers,
        vec![FoundMarker {
            offset: 2,
            marker: "TODO",
        }]
    );
}

#[test]
fn find_markers_with_repeated_punctuation_returns_marker() {
    let markers = find_markers("//// TODO: fix");

    assert_eq!(
        markers,
        vec![FoundMarker {
            offset: 5,
            marker: "TODO",
        }]
    );
}

#[test]
fn find_markers_with_star_prefixed_line_returns_offset_of_marker() {
    let markers = find_markers("/*\n * TODO: fix\n */");

    assert_eq!(
        markers,
        vec![FoundMarker {
            offset: 6,
            marker: "TODO",
        }]
    );
}

#[test]
fn find_markers_counts_bytes_of_wide_characters_before_a_line() {
    let markers = find_markers("// é\n// FIXME: later\n//! HACK");

    assert_eq!(
        markers,
        vec![
            FoundMarker {
                offset: 9,
                marker: "FIXME",
            },
            FoundMarker {
                offset: 26,
                marker: "HACK",
            },
        ]
    );
}

#[test]
fn is_word_break_rejects_letters_digits_and_underscores() {
    assert!(is_word_break(""));
    assert!(is_word_break(": fix"));
    assert!(is_word_break("(marts)"));
    assert!(!is_word_break("S"));
    assert!(!is_word_break("_x"));
    assert!(!is_word_break("9"));
}

#[test]
fn block_comment_with_marker_on_inner_line_is_flagged() {
    let diagnostics = run("/*\n * FIXME: this breaks on empty input\n */\nfn f() {}");
    assert_eq!(diagnostics.len(), 1);
    assert!(diagnostics[0].message.contains("`FIXME`"));
}

#[test]
fn block_comment_with_mid_line_marker_is_not_flagged() {
    assert!(run("/* we removed the TODO already */\nfn f() {}").is_empty());
}

#[test]
fn block_comment_with_two_markers_is_flagged_twice() {
    let diagnostics = run("/*\n * TODO: one\n * HACK: two\n */\nfn f() {}");
    assert_eq!(diagnostics.len(), 2);
    assert!(diagnostics[0].message.contains("`TODO`"));
    assert!(diagnostics[1].message.contains("`HACK`"));
}

#[test]
fn doc_attribute_with_marker_is_not_flagged() {
    assert!(run("#[doc = \"TODO: document this\"]\nfn f() {}").is_empty());
}

#[test]
fn doc_comment_with_marker_is_flagged_once() {
    let diagnostics = run("/// TODO: document this\nfn f() {}");
    assert_eq!(diagnostics.len(), 1);
    assert_eq!(span(&diagnostics[0]), (4, 8));
}

#[test]
fn hack_comment_is_flagged() {
    let diagnostics = run("// HACK: works around a borrow checker limit\nfn f() {}");
    assert_eq!(diagnostics.len(), 1);
    assert!(diagnostics[0].message.contains("`HACK`"));
}

#[test]
fn inner_doc_comment_with_marker_is_flagged_once() {
    let diagnostics = run("//! XXX: this module needs a rewrite\nfn f() {}");
    assert_eq!(diagnostics.len(), 1);
    assert_eq!(span(&diagnostics[0]), (4, 7));
}

#[test]
fn marker_in_doc_example_is_not_flagged() {
    assert!(run("/// ```ignore\n/// // TODO: refactor this later\n/// ```\nfn f() {}").is_empty());
}

#[test]
fn marker_in_prose_is_not_flagged() {
    assert!(run("/// Returns the TODO count for a user\nfn f() {}\n// we removed the FIXME already\n").is_empty());
}

#[test]
fn marker_in_string_literal_is_not_flagged() {
    assert!(run("fn f() { let _ = \"// TODO: fix\"; let _ = \"FIXME\"; }").is_empty());
}

#[test]
fn marker_in_url_is_not_flagged() {
    assert!(run("/// See https://example.com/issues/TODO\n// https://example.com/FIXME\nfn f() {}").is_empty());
}

#[test]
fn marker_inside_function_body_is_flagged() {
    assert_eq!(run("fn f() {\n    // TODO: handle the empty case\n}").len(), 1);
}

#[test]
fn nested_block_comment_with_marker_is_flagged_once() {
    let diagnostics = run("/* outer\n/* TODO: inner */\n*/\nfn f() {}");
    assert_eq!(diagnostics.len(), 1);
    assert_eq!(span(&diagnostics[0]), (12, 16));
}

#[test]
fn outer_block_doc_comment_with_marker_is_flagged_once() {
    let diagnostics = run("/** TODO: document this */\nfn f() {}");
    assert_eq!(diagnostics.len(), 1);
    assert_eq!(span(&diagnostics[0]), (4, 8));
}

#[test]
fn plain_comment_is_not_flagged() {
    assert!(run("// this function adds two numbers\nfn f() {}").is_empty());
}

#[test]
fn todo_comment_is_flagged() {
    let diagnostics = run("// TODO: refactor this later\nfn helper() {}");
    assert_eq!(diagnostics.len(), 1);
    assert_eq!(diagnostics[0].rule, "lint.no-todo-comments");
    assert!(diagnostics[0].message.contains("issue tracker"));
    assert_eq!(span(&diagnostics[0]), (3, 7));
}

#[test]
fn todo_macro_is_not_flagged() {
    assert!(run("fn f() { todo!() }").is_empty());
}

#[test]
fn todo_with_author_is_flagged() {
    let diagnostics = run("// TODO(marts): finish this\nfn f() {}");
    assert_eq!(diagnostics.len(), 1);
    assert_eq!(span(&diagnostics[0]), (3, 7));
}

#[test]
fn no_todo_comments_trait_send() {
    fn assert_send<T: Send>() {}
    assert_send::<NoTodoComments>();
}

#[test]
fn trait_send_found_marker() {
    fn assert_send<T: Send>() {}
    assert_send::<FoundMarker>();
}

#[test]
fn no_todo_comments_trait_sync() {
    fn assert_sync<T: Sync>() {}
    assert_sync::<NoTodoComments>();
}

#[test]
fn trait_sync_found_marker() {
    fn assert_sync<T: Sync>() {}
    assert_sync::<FoundMarker>();
}

#[test]
fn no_todo_comments_trait_unpin() {
    fn assert_unpin<T: Unpin>() {}
    assert_unpin::<NoTodoComments>();
}

#[test]
fn trait_unpin_found_marker() {
    fn assert_unpin<T: Unpin>() {}
    assert_unpin::<FoundMarker>();
}

#[test]
fn two_line_comments_with_markers_are_flagged_twice() {
    let diagnostics = run("// TODO: one\n// FIXME: two\nfn f() {}");
    assert_eq!(diagnostics.len(), 2);
    assert_eq!(span(&diagnostics[0]), (3, 7));
    assert_eq!(span(&diagnostics[1]), (16, 21));
}

#[test]
fn xxx_comment_is_flagged() {
    let diagnostics = run("// XXX\nfn f() {}");
    assert_eq!(diagnostics.len(), 1);
    assert!(diagnostics[0].message.contains("`XXX`"));
}

#[test]
fn whole_message_names_the_marker() {
    let diagnostics = run("// FIXME later\nfn f() {}");
    assert_eq!(diagnostics[0].message, "`FIXME` comment: track this work in the issue tracker instead");
}

#[test]
fn one_marker_per_line_at_most() {
    let markers = find_markers("// TODO FIXME HACK XXX\n// FIXME TODO");

    assert_eq!(markers.len(), 2);
    assert_eq!(markers[0].marker, "TODO");
    assert_eq!(markers[1].marker, "FIXME");
}
