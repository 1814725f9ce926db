use whisker_aonyx_rules::long_doc_sentence::doc_line::DocLine;
use whisker_aonyx_rules::long_doc_sentence::sentence::{
    count_words, is_abbreviation, is_heading, is_link_definition, list_marker, mask_code_spans,
    sentences, split, Fence, Prose, Sentence,
};
use whisker_aonyx_rules::long_doc_sentence::{LongDocSentence, Marker, MAX_WORDS};
use whisker_aonyx_rules::diagnostic::Diagnostic;
use whisker_aonyx_rules::parse::parse_rust;

fn check(source: &str) -> Vec<Diagnostic> {
    let tree = parse_rust(source).expect("parses");
    let rule = LongDocSentence;
    let mut out = Vec::new();
    for i in 0..tree.len() {
        match tree.node(i).kind.as_str() {
            "line_comment" => out.extend(rule.check_line_comment(&tree, i)),
            "block_comment" => out.extend(rule.check_block_comment(&tree, i)),
            _ => {}
        }
    }
    out
}

fn numbered_words(count: usize) -> String {
    let words: Vec<String> = (0..count).map(|index| format!("word{index}")).collect();
    words.join(" ")
}

fn doc_of(count: usize) -> String {
    format!("/// {}.\npub struct Foo;\n", numbered_words(count))
}

fn words(text: &str) -> Vec<usize> {
    sentences(&lines(text)).iter().map(Sentence::words).collect()
}

fn lines(text: &str) -> Vec<DocLine<'_>> {
    let mut offset = 0;
    let mut lines = Vec::new();
    for line in text.split('\n') {
        lines.push(DocLine::new(line, offset));
        offset += line.len() + 1;
    }
    lines
}

#[test]
fn accessors_return_constructor_arguments() {
    let line = DocLine::new(" Returns the length", 7);

    assert_eq!(line.text(), " Returns the length");
    assert_eq!(line.offset(), 7);
}

#[test]
fn count_words_ignores_bare_punctuation() {
    assert_eq!(count_words("a -- b"), 2);
}

#[test]
fn count_words_treats_a_masked_code_span_as_one_word() {
    assert_eq!(count_words(&mask_code_spans("takes `Vec<String>` now")), 3);
}

#[test]
fn fence_closes_accepts_a_longer_run() {
    let opened = Fence::of("```").expect("a fence");
    let candidate = Fence::of("`````").expect("a fence");

    let closes = candidate.closes(opened);

    assert!(closes);
}

#[test]
fn fence_closes_rejects_a_different_character() {
    let opened = Fence::of("```").expect("a fence");
    let candidate = Fence::of("~~~").expect("a fence");

    let closes = candidate.closes(opened);

    assert!(!closes);
}

#[test]
fn fence_closes_rejects_a_labeled_run() {
    let opened = Fence::of("```").expect("a fence");
    let candidate = Fence::of("```rust").expect("a fence");

    let closes = candidate.closes(opened);

    assert!(!closes);
}

#[test]
fn fence_closes_rejects_a_shorter_run() {
    let opened = Fence::of("````").expect("a fence");
    let candidate = Fence::of("```").expect("a fence");

    let closes = candidate.closes(opened);

    assert!(!closes);
}

#[test]
fn fence_of_rejects_a_short_run() {
    assert!(Fence::of("`` code").is_none());
}

#[test]
fn fence_of_rejects_prose() {
    assert!(Fence::of("Returns the length").is_none());
}

#[test]
fn is_abbreviation_accepts_inner_periods() {
    assert!(is_abbreviation("e.g."));
    assert!(is_abbreviation("a.k.a."));
}

#[test]
fn is_abbreviation_rejects_a_plain_word() {
    assert!(!is_abbreviation("word."));
}

#[test]
fn is_abbreviation_rejects_a_version_number() {
    assert!(!is_abbreviation("1.97.0."));
}

#[test]
fn is_heading_accepts_a_section_heading() {
    assert!(is_heading("# Errors"));
    assert!(is_heading("## Panics"));
}

#[test]
fn is_heading_rejects_an_issue_reference() {
    assert!(!is_heading("#239 changed this"));
}

#[test]
fn is_link_definition_accepts_a_reference_target() {
    assert!(is_link_definition("[`io::Error`]: std::io::Error"));
}

#[test]
fn is_link_definition_rejects_a_reference_use() {
    assert!(!is_link_definition("[the walker][ignore] honors gitignore"));
}

#[test]
fn list_marker_measures_an_ordered_item() {
    assert_eq!(list_marker("12. first"), 4);
}

#[test]
fn list_marker_measures_an_unordered_item() {
    assert_eq!(list_marker("- first"), 2);
}

#[test]
fn list_marker_rejects_a_decimal() {
    assert_eq!(list_marker("1.5 seconds"), 0);
}

#[test]
fn mask_code_spans_hides_a_period_inside_a_span() {
    assert_eq!(mask_code_spans("see `a. b` now"), "see `xxxx` now");
}

#[test]
fn mask_code_spans_leaves_an_unclosed_span_alone() {
    assert_eq!(mask_code_spans("a ` b c"), "a ` b c");
}

#[test]
fn mask_code_spans_respects_a_double_backtick_span() {
    assert_eq!(mask_code_spans("``a ` b`` c"), "``xxxxx`` c");
}

#[test]
fn sentences_maps_offsets_back_to_the_file() {
    let found = sentences(&lines("Abc def.\nGhi."));

    assert_eq!(found.len(), 2);
    assert_eq!((found[0].start(), found[0].end()), (0, 8));
    assert_eq!((found[1].start(), found[1].end()), (9, 13));
}

#[test]
fn sentences_reports_nothing_for_empty_prose() {
    assert!(sentences(&lines("\n\n")).is_empty());
}

#[test]
fn sentences_counts_the_words_of_each_sentence() {
    let found = sentences(&lines("One two three. Four five."));

    assert_eq!(found.len(), 2);
    assert_eq!(found[0].words(), 3);
    assert_eq!(found[1].words(), 2);
}

#[test]
fn split_breaks_after_a_period_and_a_space() {
    assert_eq!(split("Abc def. Ghi."), vec![(0, 8), (9, 13)]);
}

#[test]
fn split_keeps_an_abbreviation_inside_its_sentence() {
    assert_eq!(split("Use e.g. this one."), vec![(0, 18)]);
}

#[test]
fn doc_line_trait_send() {
    fn assert_send<T: Send>() {}
    assert_send::<DocLine<'_>>();
}

#[test]
fn doc_line_trait_sync() {
    fn assert_sync<T: Sync>() {}
    assert_sync::<DocLine<'_>>();
}

#[test]
fn doc_line_trait_unpin() {
    fn assert_unpin<T: Unpin>() {}
    assert_unpin::<DocLine<'_>>();
}

#[test]
fn block_doc_comment_over_the_limit_is_flagged() {
    assert_eq!(check(&format!("/** {}. */\npub struct Foo;\n", numbered_words(30))).len(), 1);
}

#[test]
fn block_inner_doc_comment_over_the_limit_is_flagged() {
    assert_eq!(check(&format!("/*! {}. */\npub struct Foo;\n", numbered_words(30))).len(), 1);
}

#[test]
fn code_span_counts_as_one_word() {
    let source = "/// Reads `a b c d e f`, `g h i j k l`, `m n o p q r`, and `s t u v w x` now.\npub struct Foo;\n";
    assert!(check(source).is_empty());
}

#[test]
fn doc_comment_inside_an_impl_is_flagged() {
    let source = format!("impl Foo {{\n    /// {}.\n    fn f(&self) {{}}\n}}\n", numbered_words(30));
    assert_eq!(check(&source).len(), 1);
}

#[test]
fn fenced_code_block_is_not_flagged() {
    let source = format!("/// Summary\n///\n/// ```text\n/// {}.\n/// ```\npub struct Foo;\n", numbered_words(30));
    assert!(check(&source).is_empty());
}

#[test]
fn inner_and_outer_markers_are_not_joined() {
    let half = numbered_words(15);
    assert!(check(&format!("//! {half}\n/// {half}\npub struct Foo;\n")).is_empty());
}

#[test]
fn inner_doc_comment_over_the_limit_is_flagged() {
    assert_eq!(check(&format!("//! {}.\n", numbered_words(30))).len(), 1);
}

#[test]
fn long_sentence_across_lines_is_flagged() {
    let source = "/// Returns the coverage verdict for this file, which is empty when no decoration\n/// providers were configured, since a provider that declines still counts as\n/// having looked and the walk needs to distinguish that from never having run.\npub struct Foo;\n";
    let diagnostics = check(source);
    assert_eq!(diagnostics.len(), 1);
    assert_eq!(diagnostics[0].rule, "lint.long-doc-sentence");
    assert!(diagnostics[0].message.contains("37 words"));
    let text = &source[diagnostics[0].start..diagnostics[0].end];
    assert!(text.starts_with("Returns the coverage"));
    assert!(text.ends_with("having run."));
}

#[test]
fn multibyte_prose_reports_a_span_on_a_character_boundary() {
    let source = format!("/// 日本語 {}.\npub struct Foo;\n", numbered_words(30));
    let diagnostics = check(&source);
    assert_eq!(diagnostics.len(), 1);
    assert!(source[diagnostics[0].start..diagnostics[0].end].starts_with("日本語"));
}

#[test]
fn multibyte_text_is_not_flagged() {
    let source = "/// Résumé — 日本語 `多バイト` ünïcödé here.\n/// ``unbalanced ` span\npub struct Foo;\n";
    assert!(check(source).is_empty());
}

#[test]
fn non_doc_comment_is_not_flagged() {
    assert!(check(&format!("// {}.\npub struct Foo;\n", numbered_words(40))).is_empty());
}

#[test]
fn section_heading_is_not_flagged() {
    assert!(check(&format!("/// Summary\n///\n/// # {}\npub struct Foo;\n", numbered_words(30))).is_empty());
}

#[test]
fn sentence_at_the_limit_is_not_flagged() {
    assert!(check(&doc_of(MAX_WORDS)).is_empty());
}

#[test]
fn sentence_over_the_limit_is_flagged() {
    let diagnostics = check(&doc_of(MAX_WORDS + 1));
    assert_eq!(diagnostics.len(), 1);
    assert!(diagnostics[0].message.contains("26 words"));
}

#[test]
fn separate_doc_blocks_are_not_joined() {
    let half = numbered_words(15);
    assert!(check(&format!("/// {half}\npub struct Foo;\n/// {half}\npub struct Bar;\n")).is_empty());
}

#[test]
fn short_sentences_are_not_flagged() {
    let source = "/// Returns the coverage verdict for this file\n///\n/// The map is empty when no providers were configured. A provider that\n/// declines still counts as having looked.\npub struct Foo;\n";
    assert!(check(source).is_empty());
}

#[test]
fn span_covers_one_sentence_only() {
    let source = doc_of(MAX_WORDS + 1);
    let diagnostics = check(&source);
    assert_eq!(diagnostics.len(), 1);
    let sentence = source[4..].lines().next().expect("the doc line");
    assert_eq!(&source[diagnostics[0].start..diagnostics[0].end], sentence);
}

#[test]
fn lib_trait_send() {
    fn assert_send<T: Send>() {}
    assert_send::<LongDocSentence>();
    assert_send::<Marker>();
}

#[test]
fn lib_trait_sync() {
    fn assert_sync<T: Sync>() {}
    assert_sync::<LongDocSentence>();
    assert_sync::<Marker>();
}

#[test]
fn lib_trait_unpin() {
    fn assert_unpin<T: Unpin>() {}
    assert_unpin::<LongDocSentence>();
    assert_unpin::<Marker>();
}

#[test]
fn two_long_sentences_are_flagged_once_each() {
    let sentence = numbered_words(30);
    assert_eq!(check(&format!("/// {sentence}. And {sentence}.\npub struct Foo;\n")).len(), 2);
}

#[test]
fn whole_message_names_the_count() {
    let diagnostics = check(&doc_of(27));
    assert_eq!(diagnostics[0].message, "doc sentence is 27 words, over the 25-word limit");
}

#[test]
fn sentences_counts_a_sentence_that_spans_lines() {
    assert_eq!(words("one two three\nfour five six."), vec![6]);
}

#[test]
fn sentences_ignores_a_fenced_code_block() {
    assert_eq!(words("Text here.\n\n```\nlet a = 1. let b = 2;\n```\n\nMore text."), vec![2, 2]);
}

#[test]
fn sentences_ignores_a_link_definition() {
    assert_eq!(words("Uses [`Span`] here.\n\n[`Span`]: whisker_types::Span"), vec![3]);
}

#[test]
fn sentences_ignores_a_section_heading() {
    assert_eq!(words("# Errors\n\nReturns an error."), vec![3]);
}

#[test]
fn sentences_ignores_a_shorter_fence_inside_a_longer_one() {
    assert_eq!(words("Text here.\n\n````\n``` a. b\n````\n\nMore text."), vec![2, 2]);
}

#[test]
fn sentences_ignores_a_table_row() {
    assert_eq!(words("Text.\n\n| a | b |\n| - | - |"), vec![1]);
}

#[test]
fn sentences_ignores_a_tilde_line_inside_a_backtick_fence() {
    assert_eq!(words("Text here.\n\n```\n~~~\nlet a = 1. let b = 2;\n~~~\n```\n\nMore text."), vec![2, 2]);
}

#[test]
fn sentences_keeps_a_version_number_whole() {
    assert_eq!(words("Needs 1.97.0 or later"), vec![4]);
}

#[test]
fn sentences_splits_at_a_list_item() {
    assert_eq!(words("The rules are\n- one thing\n- two things"), vec![3, 2, 2]);
}

#[test]
fn sentences_splits_at_a_paragraph_break() {
    assert_eq!(words("One two\n\nthree four five"), vec![2, 3]);
}

#[test]
fn sentences_splits_before_a_code_span() {
    assert_eq!(words("It runs. `Foo` stops."), vec![2, 2]);
}

#[test]
fn sentences_splits_on_a_period() {
    assert_eq!(words("One two three. Four five."), vec![3, 2]);
}

#[test]
fn sentences_treats_an_unnamed_abbreviation_as_one_sentence() {
    assert_eq!(words("Prefers a.k.a. Names over others."), vec![5]);
}

#[test]
fn split_keeps_a_bare_macro_name_whole() {
    assert_eq!(words("The matches! macro hides the arms."), vec![6]);
}

#[test]
fn split_keeps_a_capitalized_listed_abbreviation_whole() {
    assert_eq!(words("Compare Cf. Rust and this."), vec![5]);
}

#[test]
fn split_keeps_a_listed_abbreviation_whole() {
    assert_eq!(words("Compare cf. Rust and this."), vec![5]);
}

#[test]
fn split_keeps_a_path_whole() {
    assert_eq!(words("Reads std::io::Error from disk."), vec![4]);
}

#[test]
fn split_keeps_a_url_whole() {
    assert_eq!(words("See https://flox.dev for more."), vec![4]);
}

#[test]
fn split_keeps_e_g_whole() {
    assert_eq!(words("The kind, e.g. `function_item`, is a string."), vec![7]);
}

#[test]
fn split_keeps_i_e_whole() {
    assert_eq!(words("One thing, i.e. the only thing."), vec![6]);
}

#[test]
fn split_stops_at_a_lowercase_name() {
    assert_eq!(words("Interns it. rust-analyzer panics."), vec![2, 2]);
}

#[test]
fn split_stops_at_a_question_mark() {
    assert_eq!(words("Did it run? It did."), vec![3, 2]);
}

#[test]
fn sentence_trait_send() {
    fn assert_send<T: Send>() {}
    assert_send::<Fence>();
    assert_send::<Prose>();
    assert_send::<Sentence>();
}

#[test]
fn sentence_trait_sync() {
    fn assert_sync<T: Sync>() {}
    assert_sync::<Fence>();
    assert_sync::<Prose>();
    assert_sync::<Sentence>();
}

#[test]
fn sentence_trait_unpin() {
    fn assert_unpin<T: Unpin>() {}
    assert_unpin::<Fence>();
    assert_unpin::<Prose>();
    assert_unpin::<Sentence>();
}

#[test]
fn mask_code_spans_keeps_the_byte_length() {
    let text = "see `é → ü` here";

    let masked = mask_code_spans(text);

    assert_eq!(masked.len(), text.len());
    assert_eq!(masked, format!("see `{}` here", "x".repeat("é → ü".len())));
}
