use whisker_aonyx_rules::diagnostic::Diagnostic;
use whisker_aonyx_rules::no_em_dash_aside::comments::DocMarker;
use whisker_aonyx_rules::no_em_dash_aside::find_asides;
use whisker_aonyx_rules::no_em_dash_aside::markdown::{
    closes_fence, fence_run, indent_width, is_rule, is_table_row, marker_rest, spaces, strip_star,
    DocLine,
};
use whisker_aonyx_rules::no_em_dash_aside::masking::{dash_at, join, locate, mask, Aside, AsideKind};
use whisker_aonyx_rules::no_em_dash_aside::NoEmDashAside;
use whisker_aonyx_rules::parse::parse_rust;

fn check(source: &str) -> Vec<Diagnostic> {
    let tree = parse_rust(source).expect("the source should parse");
    let rule = NoEmDashAside;
    let mut found = Vec::new();
    for node in 0..tree.len() {
        let diagnostics = match tree.node(node).kind.as_str() {
            "block_comment" => rule.check_block_comment(&tree, node),
            "line_comment" => rule.check_line_comment(&tree, node),
            _ => Vec::new(),
        };
        for diagnostic in diagnostics {
            assert_eq!(diagnostic.rule, "lint.no-em-dash-aside");
            found.push(diagnostic);
        }
    }
    found
}

fn lines(text: &str) -> Vec<DocLine<'_>> {
    let mut offset = 0;
    let mut out = Vec::new();
    for line in text.split('\n') {
        out.push(DocLine { text: line, offset });
        offset += line.len() + 1;
    }
    out
}

#[test]
fn block_doc_comment_with_em_dash_is_flagged() {
    let source = "/** Returns the type — or nothing */\nfn f() {}";

    let diagnostics = check(source);

    assert_eq!(diagnostics.len(), 1);
}

#[test]
fn block_doc_comment_with_star_margin_is_flagged() {
    let source = "/**\n * Returns the type\n *\n * The walk records it — and carries on.\n */\nfn f() {}";

    let diagnostics = check(source);

    assert_eq!(diagnostics.len(), 1);
}

#[test]
fn code_fence_with_spaced_hyphen_is_not_flagged() {
    let source = "/// Adds two numbers\n///\n/// ```\n/// let c = a - b;\n/// ```\nfn f() {}";

    let diagnostics = check(source);

    assert!(diagnostics.is_empty());
}

#[test]
fn code_span_wrapped_across_lines_is_not_flagged() {
    let source = "/// Uses the operator `a\n/// — b` in place\nfn f() {}";

    let diagnostics = check(source);

    assert!(diagnostics.is_empty());
}

#[test]
fn dash_after_a_closed_fence_is_flagged() {
    let source = "/// Adds\n///\n/// ```\n/// let c = a - b;\n/// ```\n///\n/// It adds — always.\nfn f() {}";

    let diagnostics = check(source);

    assert_eq!(diagnostics.len(), 1);
}

#[test]
fn double_hyphen_flag_name_is_not_flagged() {
    let source = "/// Pass --deny-warnings to fail on a warning\nfn f() {}";

    let diagnostics = check(source);

    assert!(diagnostics.is_empty());
}

#[test]
fn em_dash_in_a_code_span_is_not_flagged() {
    let source = "/// Renders `a — b` verbatim\nfn f() {}";

    let diagnostics = check(source);

    assert!(diagnostics.is_empty());
}

#[test]
fn em_dash_in_a_plain_block_comment_is_not_flagged() {
    let source = "/* Returns the type — or nothing */\nfn f() {}";

    let diagnostics = check(source);

    assert!(diagnostics.is_empty());
}

#[test]
fn em_dash_in_a_plain_comment_is_not_flagged() {
    let source = "// Returns the type — or nothing\nfn f() {}";

    let diagnostics = check(source);

    assert!(diagnostics.is_empty());
}

#[test]
fn em_dash_in_a_quotation_is_not_flagged() {
    let source = "/// The report reads \"resolved — or nothing\" verbatim\nfn f() {}";

    let diagnostics = check(source);

    assert!(diagnostics.is_empty());
}

#[test]
fn em_dash_in_an_inner_doc_comment_is_flagged() {
    let source = "//! Loads a project — and reports what it skipped\nfn f() {}";

    let diagnostics = check(source);

    assert_eq!(diagnostics.len(), 1);
    assert_eq!(diagnostics[0].rule, "lint.no-em-dash-aside");
    assert!(diagnostics[0].message.contains("em dash"));
}

#[test]
fn em_dash_inside_a_nested_module_is_flagged() {
    let source = "mod inner {\n    /// Returns the type — or nothing\n    fn f() {}\n}";

    let diagnostics = check(source);

    assert_eq!(diagnostics.len(), 1);
}

#[test]
fn em_dash_on_a_wrapped_line_is_flagged() {
    let source =
        "/// Returns the resolved type\n/// — or nothing, when the item has no span\nfn f() {}";

    let diagnostics = check(source);

    assert_eq!(diagnostics.len(), 1);
}

#[test]
fn em_dash_without_spaces_is_flagged() {
    let source = "/// Read the file first—do not guess at its contents\nfn f() {}";

    let diagnostics = check(source);

    assert_eq!(diagnostics.len(), 1);
}

#[test]
fn en_dash_in_a_range_is_not_flagged() {
    let source = "/// Keeps every sentence between 15–25 words\nfn f() {}";

    let diagnostics = check(source);

    assert!(diagnostics.is_empty());
}

#[test]
fn en_dash_with_spaces_is_flagged() {
    let source = "/// Returns the type – or nothing, when there is no span\nfn f() {}";

    let diagnostics = check(source);

    assert_eq!(diagnostics.len(), 1);
    assert!(diagnostics[0].message.contains("en dash"));
}

#[test]
fn heading_with_a_dash_is_not_flagged() {
    let source = "/// Loads a project\n///\n/// # Errors — and how to read them\nfn f() {}";

    let diagnostics = check(source);

    assert!(diagnostics.is_empty());
}

#[test]
fn heading_with_a_tab_after_the_hashes_is_not_flagged() {
    let source = "/// Loads a project\n///\n/// #\tErrors — and how to read them\nfn f() {}";

    let diagnostics = check(source);

    assert!(diagnostics.is_empty());
}

#[test]
fn hyphenated_word_is_not_flagged() {
    let source = "/// Reports a reference-style link definition\nfn f() {}";

    let diagnostics = check(source);

    assert!(diagnostics.is_empty());
}

#[test]
fn indented_code_block_is_not_flagged() {
    let source = "/// Adds two numbers\n///\n///     let c = a - b;\nfn f() {}";

    let diagnostics = check(source);

    assert!(diagnostics.is_empty());
}

#[test]
fn link_definition_is_not_flagged() {
    let source =
        "/// Returns an [`Option<T>`]\n///\n/// [`Option<T>`]: std::option::Option\nfn f() {}";

    let diagnostics = check(source);

    assert!(diagnostics.is_empty());
}

#[test]
fn list_bullet_is_not_flagged() {
    let source = "/// Reports two gaps\n///\n/// - outside the workspace root\n/// - not a member crate\nfn f() {}";

    let diagnostics = check(source);

    assert!(diagnostics.is_empty());
}

#[test]
fn many_documented_items_are_each_flagged_once() {
    let source =
        "/// One — two\nfn a() {}\n\n/// Three — four\nfn b() {}\n\n/// Five — six\nfn c() {}";

    let diagnostics = check(source);

    assert_eq!(diagnostics.len(), 3);
}

#[test]
fn negative_number_is_not_flagged() {
    let source = "/// Returns -1 when the item has no span\nfn f() {}";

    let diagnostics = check(source);

    assert!(diagnostics.is_empty());
}

#[test]
fn numbered_list_marker_is_not_flagged() {
    let source = "/// Runs in order\n///\n/// 1. parse\n/// 2. decorate\nfn f() {}";

    let diagnostics = check(source);

    assert!(diagnostics.is_empty());
}

#[test]
fn quotation_wrapped_across_lines_is_not_flagged() {
    let source = "/// The report reads \"resolved\n/// — or nothing\" verbatim\nfn f() {}";

    let diagnostics = check(source);

    assert!(diagnostics.is_empty());
}

#[test]
fn separate_doc_blocks_are_each_scanned() {
    let source = "/// Returns a type — or nothing\nfn f() {}\n\n/// Returns a span — or nothing\nfn g() {}";

    let diagnostics = check(source);

    assert_eq!(diagnostics.len(), 2);
}

#[test]
fn spaced_hyphen_mid_sentence_is_flagged() {
    let source =
        "/// The walk records the failure - and carries on - so it stays complete\nfn f() {}";

    let diagnostics = check(source);

    assert_eq!(diagnostics.len(), 2);
    assert!(diagnostics[0].message.contains("spaced hyphen"));
}

#[test]
fn span_covers_a_dash_on_a_continuation_line() {
    let source =
        "/// Returns the resolved type\n/// — or nothing, when there is no span\nfn f() {}";
    let start = source.find('—').expect("source should contain an em dash");

    let diagnostics = check(source);

    assert_eq!(diagnostics.len(), 1);
    assert_eq!((diagnostics[0].start, diagnostics[0].end), (start, start + "—".len()));
}

#[test]
fn span_covers_only_the_dash() {
    let source = "/// Returns a type — or nothing\nfn f() {}";
    let start = source.find('—').expect("source should contain an em dash");

    let diagnostics = check(source);

    assert_eq!(diagnostics.len(), 1);
    assert_eq!((diagnostics[0].start, diagnostics[0].end), (start, start + "—".len()));
}

#[test]
fn table_row_is_not_flagged() {
    let source = "/// Maps a gap to a fix\n///\n/// | gap | fix |\n/// | --- | --- |\n/// | outside - the root | move it |\nfn f() {}";

    let diagnostics = check(source);

    assert!(diagnostics.is_empty());
}

#[test]
fn thematic_break_is_not_flagged() {
    let source =
        "/// Loads a project\n///\n/// ---\n///\n/// Reports what it skipped\nfn f() {}";

    let diagnostics = check(source);

    assert!(diagnostics.is_empty());
}

#[test]
fn tilde_fence_with_spaced_hyphen_is_not_flagged() {
    let source = "/// Adds two numbers\n///\n/// ~~~\n/// let c = a - b;\n/// ~~~\nfn f() {}";

    let diagnostics = check(source);

    assert!(diagnostics.is_empty());
}

#[test]
fn trailing_hyphen_at_the_end_of_a_block_is_not_flagged() {
    let source = "/// Reports the gap -\nfn f() {}";

    let diagnostics = check(source);

    assert!(diagnostics.is_empty());
}

#[test]
fn trait_send_aside() {
    fn assert_send<T: Send>() {}
    assert_send::<Aside>();
}

#[test]
fn trait_send_aside_kind() {
    fn assert_send<T: Send>() {}
    assert_send::<AsideKind>();
}

#[test]
fn trait_send_doc_line() {
    fn assert_send<T: Send>() {}
    assert_send::<DocLine<'_>>();
}

#[test]
fn trait_send_doc_marker() {
    fn assert_send<T: Send>() {}
    assert_send::<DocMarker>();
}

#[test]
fn trait_send_pass() {
    fn assert_send<T: Send>() {}
    assert_send::<NoEmDashAside>();
}

#[test]
fn trait_sync_aside() {
    fn assert_sync<T: Sync>() {}
    assert_sync::<Aside>();
}

#[test]
fn trait_sync_aside_kind() {
    fn assert_sync<T: Sync>() {}
    assert_sync::<AsideKind>();
}

#[test]
fn trait_sync_doc_line() {
    fn assert_sync<T: Sync>() {}
    assert_sync::<DocLine<'_>>();
}

#[test]
fn trait_sync_doc_marker() {
    fn assert_sync<T: Sync>() {}
    assert_sync::<DocMarker>();
}

#[test]
fn trait_sync_pass() {
    fn assert_sync<T: Sync>() {}
    assert_sync::<NoEmDashAside>();
}

#[test]
fn trait_unpin_aside() {
    fn assert_unpin<T: Unpin>() {}
    assert_unpin::<Aside>();
}

#[test]
fn trait_unpin_aside_kind() {
    fn assert_unpin<T: Unpin>() {}
    assert_unpin::<AsideKind>();
}

#[test]
fn trait_unpin_doc_line() {
    fn assert_unpin<T: Unpin>() {}
    assert_unpin::<DocLine<'_>>();
}

#[test]
fn trait_unpin_doc_marker() {
    fn assert_unpin<T: Unpin>() {}
    assert_unpin::<DocMarker>();
}

#[test]
fn trait_unpin_pass() {
    fn assert_unpin<T: Unpin>() {}
    assert_unpin::<NoEmDashAside>();
}

#[test]
fn find_asides_reports_each_dash_with_its_file_range() {
    let text = "It works — mostly.\nA range 1–2 is fine - but this is not.";

    let found = find_asides(&lines(text));

    assert_eq!(found.len(), 2);
    assert_eq!((found[0].kind, found[0].offset, found[0].length), (AsideKind::EmDash, 9, 3));
    assert_eq!(found[1].kind, AsideKind::SpacedHyphen);
    assert_eq!(&text[9..12], "—");
    assert_eq!(&text[found[1].offset..found[1].offset + found[1].length], "-");
}

#[test]
fn mask_hides_code_spans_and_quotes_byte_for_byte() {
    assert_eq!(mask("a `b - c` \"d - e\" f"), b"a xxxxxxx xxxxxxx f".to_vec());
    assert_eq!(mask("open `code - rest"), b"open xxxxxxxxxxxx".to_vec());
    assert_eq!(mask("one \" quote - only"), b"one \" quote - only".to_vec());
}

#[test]
fn dash_at_needs_spaces_around_a_hyphen() {
    assert_eq!(dash_at(b"a - b", 2), Some((AsideKind::SpacedHyphen, 3)));
    assert_eq!(dash_at(b"a-b", 1), None);
    assert_eq!(dash_at("a– b".as_bytes(), 1), Some((AsideKind::EnDash, 4)));
    assert_eq!(dash_at("1–2".as_bytes(), 1), None);
    assert_eq!(dash_at("a—b".as_bytes(), 1), Some((AsideKind::EmDash, 4)));
}

#[test]
fn join_and_locate_map_back_to_each_line() {
    let paragraph = [DocLine { text: "ab", offset: 10 }, DocLine { text: "cd", offset: 40 }];

    let (text, starts) = join(&paragraph);

    assert_eq!(text, "ab\ncd");
    assert_eq!(starts, vec![0, 3]);
    assert_eq!(locate(&paragraph, &starts, 1), 11);
    assert_eq!(locate(&paragraph, &starts, 4), 41);
}

#[test]
fn markdown_helpers_classify_lines() {
    assert_eq!(fence_run("```rust"), Some("```"));
    assert_eq!(fence_run("~~ x"), None);
    assert!(closes_fence("````  ", "```"));
    assert!(!closes_fence("```x", "```"));
    assert_eq!(indent_width(" \tx"), 5);
    assert_eq!(spaces("   x"), 3);
    assert!(is_rule("- - -"));
    assert!(!is_rule("- a -"));
    assert!(is_table_row("|---|:-:|"));
    assert!(is_table_row("--|--"));
    assert_eq!(marker_rest("12) item"), Some("item"));
    assert_eq!(marker_rest("-x"), None);
}

#[test]
fn strip_star_moves_the_offset_past_the_margin() {
    let line = strip_star(DocLine { text: "  * text", offset: 100 });

    assert_eq!((line.text, line.offset), ("text", 104));
}

#[test]
fn doc_markers_are_distinct() {
    assert_ne!(DocMarker::Inner, DocMarker::Outer);
    let aside = Aside { kind: AsideKind::EnDash, offset: 1, length: 3 };
    assert_eq!(aside.kind.dash(), "en dash");
}

#[test]
fn masking_keeps_every_byte_offset() {
    let text = "a `code — span` and \"a — quote\" — then";

    let masked = mask(text);

    assert_eq!(masked.len(), text.len());
    let dash = text.rfind('—').expect("a dash");
    assert_eq!(&masked[dash..dash + '—'.len_utf8()], "—".as_bytes());
}
