pub mod anyhow_missing_context;
pub mod bool_param;
pub mod boundary;
pub mod commented_out_code;
pub mod decorations;
pub mod derive_order;
pub mod diagnostic;
pub mod explicit_destructuring;
pub mod function_scoped_import;
pub mod if_let_with_else;
pub mod long_doc_sentence;
pub mod parse;
pub mod missing_examples_doc;
pub mod missing_trait_tests;
pub mod no_em_dash_aside;
pub mod no_inline_comments;
pub mod no_matches_macro;
pub mod no_todo_comments;
pub mod prefer_let_else;
pub mod pub_field;
pub mod reference_style_links;
pub mod repeated_primitive_params;
pub mod shadow_transformations;
pub mod syntax;
pub mod text;
pub mod wildcard_match_arm;
