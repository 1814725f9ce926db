//! Flags comments that hold commented-out code
//!
//! The rule strips the comment markers and parses the body inside a probe
//! function. The body is code when it holds a construct that prose does not
//! produce by accident, or a statement that a semicolon closes. Such a
//! comment is dead source that version control already keeps. The rule
//! joins consecutive comment lines that each start their own line, so it
//! judges a commented-out function whole rather than line by line. It never
//! reports a doc comment, and reports only fragments that are valid inside a
//! function body.
use vstd::prelude::*;

use crate::diagnostic::{all_under, diag_view, diag_views, Diagnostic};
use crate::missing_examples_doc::text_lines;
use crate::no_em_dash_aside::markdown::{line_views, DocLine};
use crate::parse::{parse_rust_without_errors, texts_from};
use crate::reference_style_links::doc_block::push_lines;
use crate::syntax::{
    child_by_field_name, field_child, first_position, kind_is, kind_of, named_child,
    named_child_spec, named_children, named_children_of, position_of, text_of, SyntaxTree,
};
use crate::text::{
    append, char_width, chars_of, is_whitespace, is_ws, slice_of, starts_with, strip_prefix,
    strip_suffix, string_of_range, trim, trim_at, trim_start, trim_start_at, utf8_size, width,
};

verus! {

broadcast use vstd::seq_lib::group_seq_properties;

/// The grade of a comment body
///
/// Only [`Fragment::Code`] produces a diagnostic. The split between the
/// other two matters during the walk: [`Fragment::Prose`] vetoes the whole
/// fragment, and [`Fragment::Ambiguous`] leaves the verdict to its parent.
#[derive(Clone, Copy, Debug, PartialEq, Eq, Structural)]
pub enum Fragment {
    /// The body parses and holds a construct that prose does not produce
    Code,
    /// The body parses, but nothing in it tells code and prose apart
    Ambiguous,
    /// The body is empty, fails to parse, or spaces `.` or `::` like prose
    Prose,
}

/// Flags comments that hold commented-out code
pub struct CommentedOutCode;

/// Node kinds that a prose comment does not produce by accident: each needs
/// a keyword, an attribute, or a macro `!`
pub open spec fn code_evidence(k: Seq<char>) -> bool {
    ||| k == "async_block"@
    ||| k == "attribute_item"@
    ||| k == "const_block"@
    ||| k == "const_item"@
    ||| k == "enum_item"@
    ||| k == "extern_crate_declaration"@
    ||| k == "foreign_mod_item"@
    ||| k == "function_item"@
    ||| k == "function_signature_item"@
    ||| k == "gen_block"@
    ||| k == "impl_item"@
    ||| k == "inner_attribute_item"@
    ||| k == "let_declaration"@
    ||| k == "macro_definition"@
    ||| k == "macro_invocation"@
    ||| k == "mod_item"@
    ||| k == "static_item"@
    ||| k == "struct_item"@
    ||| k == "trait_item"@
    ||| k == "try_block"@
    ||| k == "type_item"@
    ||| k == "union_item"@
    ||| k == "unsafe_block"@
    ||| k == "use_declaration"@
}

/// The text of a `//` comment without its marker; [`None`] for `///` and
/// `//!` doc comments, while four or more slashes make an ordinary comment
/// again, as rustc lexes them
pub open spec fn line_body(text: Seq<char>) -> Option<Seq<char>> {
    match strip_prefix(text, "//"@) {
        None => None,
        Some(b) => if b.len() > 0 && b[0] == '!' {
            None
        } else if b.len() > 0 && b[0] == '/' {
            if b.len() > 1 && b[1] == '/' {
                Some(b)
            } else {
                None
            }
        } else {
            Some(b)
        },
    }
}

/// Whether every non-blank line of `rest` opens with `*` once its
/// indentation is dropped
pub open spec fn all_margin(rest: Seq<Seq<char>>) -> bool {
    forall|i: int|
        0 <= i < rest.len() && trim(#[trigger] rest[i]).len() > 0 ==> trim_start(rest[i]).len() > 0
            && trim_start(rest[i])[0] == '*'
}

/// A line without its indentation and the `*` after it
pub open spec fn unstarred(l: Seq<char>) -> Seq<char> {
    let s = trim_start(l);
    if s.len() > 0 && s[0] == '*' {
        s.subrange(1, s.len() as int)
    } else {
        s
    }
}

/// Each of `rest` without its margin, each after a line break
pub open spec fn margin_joined(rest: Seq<Seq<char>>) -> Seq<char>
    decreases rest.len(),
{
    if rest.len() == 0 {
        Seq::empty()
    } else {
        margin_joined(rest.drop_last()) + seq!['\n'] + unstarred(rest.last())
    }
}

/// A block comment body without its `*` margin: the margin comes off only
/// when every non-blank continuation line has one
pub open spec fn star_margin_stripped(body: Seq<char>) -> Seq<char> {
    let ls = text_lines(body);
    if ls.len() == 0 {
        Seq::empty()
    } else if ls.len() == 1 || !all_margin(ls.drop_first()) {
        body
    } else {
        ls[0] + margin_joined(ls.drop_first())
    }
}

/// The text of a `/* */` comment without its markers and margin; [`None`]
/// for `/**` and `/*!` doc comments
pub open spec fn block_body(text: Seq<char>) -> Option<Seq<char>> {
    match strip_prefix(text, "/*"@) {
        None => None,
        Some(b) => {
            let doc = (b.len() > 0 && b[0] == '!') || (b.len() > 1 && b[0] == '*' && b[1] != '*'
                && b[1] != '/');
            if doc {
                None
            } else {
                let c = match strip_suffix(b, "*/"@) {
                    Some(x) => x,
                    None => b,
                };
                Some(star_margin_stripped(c))
            }
        },
    }
}

/// The character whose encoding starts at byte `b` of `s`
pub open spec fn char_at_byte(s: Seq<char>, b: int) -> Option<char>
    decreases s.len(),
{
    if s.len() == 0 || b < 0 {
        None
    } else if b == 0 {
        Some(s[0])
    } else if b < width(s[0]) {
        None
    } else {
        char_at_byte(s.drop_first(), b - width(s[0]))
    }
}

/// Whether node `n` is a `.` or `::` with whitespace after it in `src`, as
/// prose spaces them and code almost never does
pub open spec fn loose_punctuation(t: SyntaxTree, src: Seq<char>, n: int) -> bool {
    &&& (kind_of(t, n) == "."@ || kind_of(t, n) == "::"@)
    &&& match char_at_byte(src, t.node_at(n).end as int) {
        Some(c) => is_ws(c),
        None => false,
    }
}

/// Whether node `n` is an expression statement closed by a semicolon
pub open spec fn terminated(t: SyntaxTree, n: int) -> bool {
    &&& kind_of(t, n) == "expression_statement"@
    &&& t.children_of(n).len() > 0
    &&& kind_of(t, t.children_of(n).last() as int) == ";"@
}

/// The grade of the subtree at node `n`: prose when any node in it spaces
/// punctuation like prose, else code when any node is evidence of code
pub open spec fn grade(t: SyntaxTree, src: Seq<char>, n: int) -> Fragment
    decreases t.size() - n, 1int, 0int,
{
    if loose_punctuation(t, src, n) {
        Fragment::Prose
    } else {
        grade_kids(
            t,
            src,
            n,
            t.children_of(n),
            0,
            if code_evidence(kind_of(t, n)) || terminated(t, n) {
                Fragment::Code
            } else {
                Fragment::Ambiguous
            },
        )
    }
}

/// The grade of node `n` given `acc` for itself and the children before
/// `kids[k]`
pub open spec fn grade_kids(t: SyntaxTree, src: Seq<char>, n: int, kids: Seq<usize>, k: int, acc: Fragment) -> Fragment
    decreases t.size() - n, 0int, kids.len() - k,
{
    if k < 0 || k >= kids.len() {
        acc
    } else if !(n < kids[k] < t.size()) {
        grade_kids(t, src, n, kids, k + 1, acc)
    } else {
        match grade(t, src, kids[k] as int) {
            Fragment::Prose => Fragment::Prose,
            Fragment::Code => grade_kids(t, src, n, kids, k + 1, Fragment::Code),
            Fragment::Ambiguous => grade_kids(t, src, n, kids, k + 1, acc),
        }
    }
}

/// The grade of the probe function's body in the tree `t` parsed from
/// `src`
pub open spec fn probe_grade(t: SyntaxTree, src: Seq<char>) -> Fragment {
    if t.size() == 0 {
        Fragment::Prose
    } else {
        match named_child_spec(t, 0, 0) {
            None => Fragment::Prose,
            Some(p) => match field_child(t, p as int, "body"@) {
                None => Fragment::Prose,
                Some(b) => grade(t, src, b as int),
            },
        }
    }
}

/// The source the rule parses for the comment body `body`: the trimmed body
/// inside a probe function
pub open spec fn probe_source(body: Seq<char>) -> Seq<char> {
    "fn __whisker_probe() {\n"@ + trim(body) + "\n}\n"@
}

/// The finding for a comment graded `f` that spans `start..end`
pub open spec fn report_spec(f: Fragment, start: usize, end: usize) -> Seq<(Seq<char>, Seq<char>, usize, usize)> {
    if f == Fragment::Code {
        seq![
            (
                "lint.commented-out-code"@,
                "remove this commented-out code; version control keeps the history"@,
                start,
                end,
            ),
        ]
    } else {
        Seq::empty()
    }
}

/// Returns the text of a `//` comment without its marker
///
/// Returns [`None`] for `///` and `//!` doc comments. Four or more slashes
/// are an ordinary comment again, which matches how rustc lexes them.
pub fn line_comment_body(text: &str) -> (r: Option<&str>)
    ensures
        match r {
            Some(b) => line_body(text@) == Some(b@),
            None => line_body(text@) is None,
        },
{
    let s = chars_of(text);
    let n = s.len();
    assert(s@.subrange(0, n as int) =~= s@);
    let open = chars_of("//");
    let a = match crate::text::strip_prefix_at(s.as_slice(), 0, n, open.as_slice()) {
        Some(a) => a,
        None => return None,
    };
    let ghost b = s@.subrange(a as int, n as int);
    if a < n && s[a] == '!' {
        return None;
    }
    if a < n && s[a] == '/' {
        if a + 1 < n && s[a + 1] == '/' {
            return Some(slice_of(text, s.as_slice(), a, n));
        }
        return None;
    }
    Some(slice_of(text, s.as_slice(), a, n))
}

/// Returns the lines of `text` as `str::lines` splits them
fn lines_of_text<'a>(text: &'a str) -> (r: Vec<&'a str>)
    ensures
        r@.map_values(|l: &str| l@) == text_lines(text@),
{
    let mut raw: Vec<DocLine<'a>> = Vec::new();
    if text.as_bytes().len() == 0 {
        proof {
            crate::text::lemma_utf8_size_bounds(text@);
        }
        let out: Vec<&'a str> = Vec::new();
        assert(out@.map_values(|l: &str| l@) =~= text_lines(text@));
        return out;
    }
    let size = text.as_bytes().len();
    assert(size == utf8_size(text@));
    push_lines(&mut raw, text, 0, true);
    let mut out: Vec<&'a str> = Vec::new();
    let mut m: usize = 0;
    while m < raw.len()
        invariant
            m <= raw@.len(),
            out@.len() == m,
            forall|j: int| 0 <= j < m ==> #[trigger] out@[j]@ == raw@[j].text@,
        decreases raw@.len() - m,
    {
        out.push(raw[m].text);
        m += 1;
    }
    assert(out@.map_values(|l: &str| l@) =~= line_views(raw@).map_values(|l: (Seq<char>, usize)| l.0));
    out
}


/// Removes the `*` margin, and the indentation before it, from a block
/// comment body
///
/// The margin comes off only when every non-blank continuation line has
/// one. A body that mixes the styles keeps its text unchanged.
pub fn strip_star_margin(body: &str) -> (r: String)
    ensures
        r@ == star_margin_stripped(body@),
{
    let ls = lines_of_text(body);
    let ghost lv = ls@.map_values(|l: &str| l@);
    if ls.len() == 0 {
        return String::new();
    }
    if ls.len() == 1 {
        return body.to_owned();
    }
    let ghost rest = lv.drop_first();
    let mut k: usize = 1;
    while k < ls.len()
        invariant
            lv == ls@.map_values(|l: &str| l@),
            lv == text_lines(body@),
            lv.len() > 1,
            rest == lv.drop_first(),
            1 <= k <= ls@.len(),
            forall|j: int|
                0 <= j < k - 1 && trim(#[trigger] rest[j]).len() > 0 ==> trim_start(rest[j]).len() > 0
                    && trim_start(rest[j])[0] == '*',
        decreases ls@.len() - k,
    {
        let c = chars_of(ls[k]);
        let n = c.len();
        assert(c@.subrange(0, n as int) =~= c@);
        assert(c@ == rest[k - 1]);
        let (a, b) = trim_at(c.as_slice(), 0, n);
        if a < b {
            let f = trim_start_at(c.as_slice(), 0, n);
            if !(f < n && c[f] == '*') {
                assert(!all_margin(rest)) by {
                    assert(trim(rest[k - 1]).len() > 0);
                }
                let whole = body.to_owned();
                assert(whole@ == body@);
                return whole;
            }
        }
        k += 1;
    }
    assert(all_margin(rest));
    let mut out = String::new();
    append(&mut out, ls[0]);
    let mut m: usize = 1;
    while m < ls.len()
        invariant
            lv == ls@.map_values(|l: &str| l@),
            rest == lv.drop_first(),
            1 <= m <= ls@.len(),
            out@ == lv[0] + margin_joined(rest.subrange(0, m - 1)),
        decreases ls@.len() - m,
    {
        let c = chars_of(ls[m]);
        let n = c.len();
        assert(c@.subrange(0, n as int) =~= c@);
        assert(c@ == rest[m - 1]);
        let ghost before = out@;
        append(&mut out, "\n");
        proof {
            reveal_strlit("\n");
        }
        let f = trim_start_at(c.as_slice(), 0, n);
        let g = if f < n && c[f] == '*' {
            f + 1
        } else {
            f
        };
        let piece = string_of_range(c.as_slice(), g, n);
        assert(piece@ == unstarred(rest[m - 1]));
        append(&mut out, piece.as_str());
        assert(rest.subrange(0, m as int).drop_last() =~= rest.subrange(0, m - 1));
        assert(rest.subrange(0, m as int).last() == rest[m - 1]);
        assert(out@ =~= lv[0] + margin_joined(rest.subrange(0, m as int)));
        m += 1;
    }
    assert(rest.subrange(0, rest.len() as int) =~= rest);
    out
}

/// Returns the text of a `/* */` comment without its markers
///
/// Returns [`None`] for `/**` and `/*!` doc comments. A body whose non-blank
/// continuation lines all open with `*` loses that decoration, so the
/// classic boxed comment reaches the parser as plain source.
pub fn block_comment_body(text: &str) -> (r: Option<String>)
    ensures
        match r {
            Some(b) => block_body(text@) == Some(b@),
            None => block_body(text@) is None,
        },
{
    let s = chars_of(text);
    let n = s.len();
    assert(s@.subrange(0, n as int) =~= s@);
    let open = chars_of("/*");
    let a = match crate::text::strip_prefix_at(s.as_slice(), 0, n, open.as_slice()) {
        Some(a) => a,
        None => return None,
    };
    let doc = (a < n && s[a] == '!') || (a < n && a + 1 < n && s[a] == '*' && s[a + 1] != '*' && s[a + 1]
        != '/');
    if doc {
        return None;
    }
    let close = chars_of("*/");
    let b = match crate::text::strip_suffix_at(s.as_slice(), a, n, close.as_slice()) {
        Some(b) => b,
        None => n,
    };
    let body = slice_of(text, s.as_slice(), a, b);
    Some(strip_star_margin(body))
}

/// Returns the character whose encoding starts at byte `b` of `s`
fn char_at(s: &[char], b: usize) -> (r: Option<char>)
    ensures
        r == char_at_byte(s@, b as int),
{
    let mut k: usize = 0;
    let mut acc: usize = 0;
    assert(s@.subrange(0, s@.len() as int) =~= s@);
    while k < s.len() && acc < b
        invariant
            k <= s@.len(),
            acc <= b,
            char_at_byte(s@, b as int) == char_at_byte(s@.subrange(k as int, s@.len() as int), b - acc),
        decreases s@.len() - k,
    {
        let ghost rest = s@.subrange(k as int, s@.len() as int);
        assert(rest.drop_first() =~= s@.subrange(k + 1, s@.len() as int));
        let w = char_width(s[k]);
        if b - acc < w {
            return None;
        }
        acc += w;
        k += 1;
    }
    if k < s.len() && acc == b {
        Some(s[k])
    } else {
        None
    }
}

/// Returns whether whitespace follows a `.` or `::` token
///
/// Rust code almost never puts a space there, but English does: `e.g.
/// foo()` parses as a call to `foo` on the field `e.g`. That space is the
/// only signal that tells the two apart.
fn has_loose_path_punctuation(t: &SyntaxTree, src: &[char], n: usize) -> (r: bool)
    requires
        n < t.size(),
    ensures
        r == loose_punctuation(*t, src@, n as int),
{
    if !(kind_is(t, n, ".") || kind_is(t, n, "::")) {
        return false;
    }
    match char_at(src, t.node(n).end) {
        Some(c) => is_whitespace(c),
        None => false,
    }
}

/// Returns whether `n` is an expression closed by a semicolon
///
/// A trailing semicolon is evidence on its own. It survives a copy-paste of
/// real code and almost never ends a sentence that also parses as Rust.
fn is_terminated_statement(t: &SyntaxTree, n: usize) -> (r: bool)
    requires
        t.valid(),
        n < t.size(),
    ensures
        r == terminated(*t, n as int),
{
    if !kind_is(t, n, "expression_statement") {
        return false;
    }
    let kids = t.children(n);
    kids.len() > 0 && kind_is(t, kids[kids.len() - 1], ";")
}

fn is_code_evidence(t: &SyntaxTree, n: usize) -> (r: bool)
    requires
        n < t.size(),
    ensures
        r == code_evidence(kind_of(*t, n as int)),
{
    kind_is(t, n, "async_block") || kind_is(t, n, "attribute_item") || kind_is(t, n, "const_block")
        || kind_is(t, n, "const_item") || kind_is(t, n, "enum_item") || kind_is(
        t,
        n,
        "extern_crate_declaration",
    ) || kind_is(t, n, "foreign_mod_item") || kind_is(t, n, "function_item") || kind_is(
        t,
        n,
        "function_signature_item",
    ) || kind_is(t, n, "gen_block") || kind_is(t, n, "impl_item") || kind_is(
        t,
        n,
        "inner_attribute_item",
    ) || kind_is(t, n, "let_declaration") || kind_is(t, n, "macro_definition") || kind_is(
        t,
        n,
        "macro_invocation",
    ) || kind_is(t, n, "mod_item") || kind_is(t, n, "static_item") || kind_is(t, n, "struct_item")
        || kind_is(t, n, "trait_item") || kind_is(t, n, "try_block") || kind_is(t, n, "type_item")
        || kind_is(t, n, "union_item") || kind_is(t, n, "unsafe_block") || kind_is(
        t,
        n,
        "use_declaration",
    )
}

/// Grades one subtree of the probe
///
/// Prose wins over code, so a body that pairs a call with prose spacing
/// stays quiet.
pub fn classify_fragment(t: &SyntaxTree, src: &[char], n: usize) -> (r: Fragment)
    requires
        t.valid(),
        n < t.size(),
    ensures
        r == grade(*t, src@, n as int),
    decreases t.size() - n,
{
    if has_loose_path_punctuation(t, src, n) {
        return Fragment::Prose;
    }
    let mut result = if is_code_evidence(t, n) || is_terminated_statement(t, n) {
        Fragment::Code
    } else {
        Fragment::Ambiguous
    };
    let kids = t.children(n);
    let ghost first = result;
    let mut k: usize = 0;
    while k < kids.len()
        invariant
            t.valid(),
            n < t.size(),
            kids@ == t.children_of(n as int),
            forall|j: int| 0 <= j < kids@.len() ==> n < #[trigger] kids@[j] < t.size(),
            k <= kids@.len(),
            grade(*t, src@, n as int) == grade_kids(*t, src@, n as int, kids@, k as int, result),
        decreases kids@.len() - k,
    {
        match classify_fragment(t, src, kids[k]) {
            Fragment::Prose => return Fragment::Prose,
            Fragment::Code => {
                result = Fragment::Code;
            },
            Fragment::Ambiguous => {},
        }
        k += 1;
    }
    result
}

/// Grades the body of the probe function in the tree `t` parsed from
/// `source`
pub fn classify_parsed(source: &str, t: &SyntaxTree) -> (r: Fragment)
    requires
        t.valid(),
    ensures
        r == probe_grade(*t, source@),
{
    if t.len() == 0 {
        return Fragment::Prose;
    }
    let probe = match named_child(t, 0, 0) {
        Some(p) => p,
        None => return Fragment::Prose,
    };
    let block = match child_by_field_name(t, probe, "body") {
        Some(b) => b,
        None => return Fragment::Prose,
    };
    let src = chars_of(source);
    classify_fragment(t, src.as_slice(), block)
}

/// The grade of a comment body, given what parsing its probe source gave:
/// a blank body, or one whose probe does not parse cleanly, is prose
pub open spec fn body_grade(body: Seq<char>, parsed: Option<SyntaxTree>) -> Fragment {
    if trim(body).len() == 0 {
        Fragment::Prose
    } else {
        match parsed {
            Some(t) => probe_grade(t, probe_source(body)),
            None => Fragment::Prose,
        }
    }
}

/// Returns the probe source for a comment body: the trimmed body inside a
/// probe function
pub fn probe_source_of(body: &str) -> (r: String)
    ensures
        r@ == probe_source(body@),
{
    let s = chars_of(body);
    let n = s.len();
    assert(s@.subrange(0, n as int) =~= s@);
    let (a, b) = trim_at(s.as_slice(), 0, n);
    let mut source = String::new();
    append(&mut source, "fn __whisker_probe() {\n");
    let inner = string_of_range(s.as_slice(), a, b);
    append(&mut source, inner.as_str());
    append(&mut source, "\n}\n");
    source
}

/// Grades a comment body, given what parsing its probe source gave
///
/// `parsed` is the tree of the body's probe source, or [`None`] when it
/// does not parse cleanly.
pub fn grade_body(body: &str, parsed: &Option<SyntaxTree>) -> (r: Fragment)
    requires
        match parsed {
            Some(t) => t.valid(),
            None => true,
        },
    ensures
        r == body_grade(body@, *parsed),
{
    let s = chars_of(body);
    let n = s.len();
    assert(s@.subrange(0, n as int) =~= s@);
    let (a, b) = trim_at(s.as_slice(), 0, n);
    if a == b {
        return Fragment::Prose;
    }
    match parsed {
        Some(t) => {
            let source = probe_source_of(body);
            classify_parsed(source.as_str(), t)
        },
        None => Fragment::Prose,
    }
}

/// Grades a comment body as code, ambiguous, or prose
///
/// The body is parsed inside a probe function, so it may hold either items
/// or statements, and the probe's body block is graded rather than the
/// root, so the function the wrapper adds never counts as evidence. An
/// empty body, or one that does not parse cleanly, is prose. The contract
/// fixes what is parsed, the probe source, through the texts of the tree's
/// nodes; which tree tree-sitter builds of it, and whether it parses
/// cleanly, is not stated. [`grade_body`] grades the body against any
/// parse.
pub fn classify(body: &str) -> (r: Fragment)
    ensures
        trim(body@).len() == 0 ==> r == Fragment::Prose,
        exists|p: Option<SyntaxTree>|
            (match p {
                Some(t) => t.valid() && texts_from(t, probe_source(body@)),
                None => true,
            }) && r == body_grade(body@, p),
{
    let source = probe_source_of(body);
    let parsed = parse_rust_without_errors(source.as_str());
    grade_body(body, &parsed)
}

/// Returns the rule's diagnostic for a comment graded `fragment` that spans
/// `start..end`: one when the comment is code, none otherwise
pub fn report(fragment: Fragment, start: usize, end: usize) -> (r: Vec<Diagnostic>)
    ensures
        diag_views(r@) == report_spec(fragment, start, end),
{
    let mut out: Vec<Diagnostic> = Vec::new();
    match fragment {
        Fragment::Code => {
            let d = Diagnostic::new(
                "lint.commented-out-code",
                "remove this commented-out code; version control keeps the history".to_owned(),
                start,
                end,
            );
            out.push(d);
            assert(diag_views(out@) =~= seq![diag_view(d)]);
        },
        _ => {
            assert(diag_views(out@) =~= Seq::empty());
        },
    }
    out
}

/// Whether only whitespace comes before node `n` on its line: it has no
/// earlier sibling, or that sibling ends on an earlier row
pub open spec fn own_line(t: SyntaxTree, n: int) -> bool {
    match t.parent_of(n) {
        None => true,
        Some(p) => match first_position(t.children_of(p as int), n as usize, 0) {
            None => true,
            Some(ix) => ix == 0 || t.node_at(t.children_of(p as int)[ix - 1] as int).end_row < t.node_at(
                n,
            ).start_row,
        },
    }
}

/// Whether comment `next` extends the run of comment lines that ends at
/// `prev`: both are plain line comments on lines of their own, one row apart
pub open spec fn continues_spec(t: SyntaxTree, prev: int, next: int) -> bool {
    &&& kind_of(t, next) == "line_comment"@
    &&& kind_of(t, prev) == "line_comment"@
    &&& line_body(text_of(t, next)) is Some
    &&& line_body(text_of(t, prev)) is Some
    &&& own_line(t, prev)
    &&& own_line(t, next)
    &&& t.node_at(prev).end_row + 1 == t.node_at(next).start_row
}

/// The comments after `sibs[j]` that extend its run
pub open spec fn run_after(t: SyntaxTree, sibs: Seq<usize>, j: int) -> Seq<usize>
    decreases sibs.len() - j,
{
    if j < 0 || j + 1 >= sibs.len() {
        Seq::empty()
    } else if continues_spec(t, sibs[j] as int, sibs[j + 1] as int) {
        seq![sibs[j + 1]] + run_after(t, sibs, j + 1)
    } else {
        Seq::empty()
    }
}

/// The run of comment lines that node `n` opens, or [`None`] when the
/// comment above belongs to the same run
pub open spec fn group_spec(t: SyntaxTree, n: int) -> Option<Seq<usize>> {
    match t.parent_of(n) {
        None => Some(seq![n as usize]),
        Some(p) => {
            let sibs = named_children_of(t, p as int);
            match first_position(sibs, n as usize, 0) {
                None => None,
                Some(ix) => if ix > 0 && continues_spec(t, sibs[ix - 1] as int, n) {
                    None
                } else {
                    Some(seq![n as usize] + run_after(t, sibs, ix))
                },
            }
        },
    }
}

/// The bodies of the plain line comments among `g`, in order
pub open spec fn bodies(t: SyntaxTree, g: Seq<usize>) -> Seq<Seq<char>>
    decreases g.len(),
{
    if g.len() == 0 {
        Seq::empty()
    } else {
        bodies(t, g.drop_last()) + match line_body(text_of(t, g.last() as int)) {
            Some(b) => seq![b],
            None => Seq::empty(),
        }
    }
}

/// `bs` joined with a line break between neighbours
pub open spec fn nl_joined(bs: Seq<Seq<char>>) -> Seq<char>
    decreases bs.len(),
{
    if bs.len() == 0 {
        Seq::empty()
    } else if bs.len() == 1 {
        bs[0]
    } else {
        nl_joined(bs.drop_last()) + seq!['\n'] + bs.last()
    }
}

/// The body the rule grades for the line comment `n`, with the span it
/// reports: the comment alone when code precedes it on its line, else the
/// run of comment lines it opens
pub open spec fn line_target(t: SyntaxTree, n: int) -> Option<(Seq<char>, usize, usize)> {
    match line_body(text_of(t, n)) {
        None => None,
        Some(b) => if !own_line(t, n) {
            Some((b, t.node_at(n).start, t.node_at(n).end))
        } else {
            match group_spec(t, n) {
                None => None,
                Some(g) => Some(
                    (nl_joined(bodies(t, g)), t.node_at(n).start, t.node_at(g.last() as int).end),
                ),
            }
        },
    }
}

/// Whether a comment's text opens with a documentation marker: `///` (but
/// not `////`), `//!`, `/**` (but not `/***` or `/**/`), or `/*!`
pub open spec fn doc_text(t: Seq<char>) -> bool {
    &&& t.len() >= 3
    &&& t[0] == '/'
    &&& {
        ||| t[1] == '/' && (t[2] == '!' || (t[2] == '/' && !(t.len() > 3 && t[3] == '/')))
        ||| t[1] == '*' && (t[2] == '!' || (t[2] == '*' && t.len() > 3 && t[3] != '*' && t[3] != '/'))
    }
}

/// A doc comment has no body for the rule to grade
proof fn lemma_doc_text_has_no_body(text: Seq<char>)
    requires
        doc_text(text),
    ensures
        line_body(text) is None,
        block_body(text) is None,
{
    reveal_strlit("//");
    reveal_strlit("/*");
    if text[1] == '/' {
        assert(text.subrange(0, 2) =~= "//"@);
        assert(strip_prefix(text, "/*"@) is None) by {
            assert(text.subrange(0, 2)[1] != "/*"@[1]);
        }
    } else {
        assert(text.subrange(0, 2) =~= "/*"@);
        assert(strip_prefix(text, "//"@) is None) by {
            assert(text.subrange(0, 2)[1] != "//"@[1]);
        }
    }
}

/// Whether `r` is what the rule reports of `body`, spanning `start..end`,
/// for some parse of the body's probe source: the one warning when that
/// parse grades the body as code, and nothing otherwise
pub open spec fn graded_report(r: Seq<(Seq<char>, Seq<char>, usize, usize)>, body: Seq<char>, start: usize, end: usize) -> bool {
    &&& exists|p: Option<SyntaxTree>|
        (match p {
            Some(t) => t.valid() && texts_from(t, probe_source(body)),
            None => true,
        }) && r == report_spec(body_grade(body, p), start, end)
    &&& (trim(body).len() == 0 ==> r == Seq::<(Seq<char>, Seq<char>, usize, usize)>::empty())
}

/// Returns whether only whitespace comes before `node` on its line
///
/// The rule judges a trailing comment by itself. Joining it with the
/// comment below would splice a prose remark onto a statement, so the pair
/// would fail to parse and the commented-out code on the lower line would
/// go unreported.
pub fn starts_its_own_line(t: &SyntaxTree, node: usize) -> (r: bool)
    requires
        t.valid(),
        node < t.size(),
    ensures
        r == own_line(*t, node as int),
{
    let p = match t.parent(node) {
        Some(p) => p,
        None => return true,
    };
    let kids = t.children(p);
    match position_of(kids, node) {
        Some(ix) => ix == 0 || t.node(kids[ix - 1]).end_row < t.node(node).start_row,
        None => true,
    }
}

/// Returns whether `next` extends the comment run that ends at `previous`
pub fn continues_group(t: &SyntaxTree, previous: usize, next: usize) -> (r: bool)
    requires
        t.valid(),
        previous < t.size(),
        next < t.size(),
    ensures
        r == continues_spec(*t, previous as int, next as int),
{
    if !kind_is(t, next, "line_comment") || !kind_is(t, previous, "line_comment") {
        return false;
    }
    if line_comment_body(t.node(next).text.as_str()).is_none() || line_comment_body(
        t.node(previous).text.as_str(),
    ).is_none() {
        return false;
    }
    if !starts_its_own_line(t, previous) || !starts_its_own_line(t, next) {
        return false;
    }
    let a = t.node(previous).end_row;
    let b = t.node(next).start_row;
    a < b && a + 1 == b
}

/// Returns the run of comment lines that `node` opens
///
/// Returns [`None`] when the comment on the line above belongs to the same
/// run, so that one run yields one diagnostic.
pub fn group_starting_at(t: &SyntaxTree, node: usize) -> (r: Option<Vec<usize>>)
    requires
        t.valid(),
        node < t.size(),
    ensures
        match r {
            Some(g) => group_spec(*t, node as int) == Some(g@) && g@.len() > 0 && forall|j: int|
                0 <= j < g@.len() ==> #[trigger] g@[j] < t.size(),
            None => group_spec(*t, node as int) is None,
        },
{
    let parent = match t.parent(node) {
        Some(p) => p,
        None => {
            let mut g: Vec<usize> = Vec::new();
            g.push(node);
            assert(g@ =~= seq![node]);
            return Some(g);
        },
    };
    let sibs = named_children(t, parent);
    let index = match position_of(sibs.as_slice(), node) {
        Some(i) => i,
        None => return None,
    };
    if index > 0 && continues_group(t, sibs[index - 1], node) {
        return None;
    }
    let mut group: Vec<usize> = Vec::new();
    group.push(node);
    let mut j = index;
    assert(group@ + run_after(*t, sibs@, index as int) =~= seq![node] + run_after(*t, sibs@, index as int));
    while j < sibs.len() - 1 && continues_group(t, sibs[j], sibs[j + 1])
        invariant
            t.valid(),
            forall|m: int| 0 <= m < sibs@.len() ==> #[trigger] sibs@[m] < t.size(),
            index <= j < sibs@.len(),
            group@.len() > 0,
            forall|m: int| 0 <= m < group@.len() ==> #[trigger] group@[m] < t.size(),
            group@ + run_after(*t, sibs@, j as int) == seq![node] + run_after(*t, sibs@, index as int),
        decreases sibs@.len() - j,
    {
        let ghost before = group@;
        group.push(sibs[j + 1]);
        assert(before + run_after(*t, sibs@, j as int) =~= group@ + run_after(*t, sibs@, j + 1));
        j += 1;
    }
    assert(run_after(*t, sibs@, j as int) =~= Seq::<usize>::empty());
    assert(group@ + Seq::<usize>::empty() =~= group@);
    Some(group)
}

impl CommentedOutCode {
    /// Creates the rule
    pub fn new() -> (r: Self) {
        CommentedOutCode
    }

    /// Checks a `/* */` comment: one that holds code gets a warning
    pub fn check_block_comment(&self, t: &SyntaxTree, node: usize) -> (r: Vec<Diagnostic>)
        requires
            t.valid(),
            node < t.size(),
        ensures
            doc_text(text_of(*t, node as int)) ==> r@.len() == 0,
            all_under(diag_views(r@), "lint.commented-out-code"@),
            match block_body(text_of(*t, node as int)) {
                None => r@.len() == 0,
                Some(b) => graded_report(
                    diag_views(r@),
                    b,
                    t.node_at(node as int).start,
                    t.node_at(node as int).end,
                ),
            },
    {
        proof {
            if doc_text(text_of(*t, node as int)) {
                lemma_doc_text_has_no_body(text_of(*t, node as int));
            }
        }
        let n = t.node(node);
        match block_comment_body(n.text.as_str()) {
            Some(body) => report(classify(body.as_str()), n.start, n.end),
            None => Vec::new(),
        }
    }

    /// Checks a `//` comment: the run of comment lines it opens, or the
    /// comment alone when code precedes it on its line, gets a warning when
    /// it holds code
    pub fn check_line_comment(&self, t: &SyntaxTree, node: usize) -> (r: Vec<Diagnostic>)
        requires
            t.valid(),
            node < t.size(),
        ensures
            doc_text(text_of(*t, node as int)) ==> r@.len() == 0,
            all_under(diag_views(r@), "lint.commented-out-code"@),
            match line_target(*t, node as int) {
                None => r@.len() == 0,
                Some((b, s, e)) => graded_report(diag_views(r@), b, s, e),
            },
    {
        proof {
            if doc_text(text_of(*t, node as int)) {
                lemma_doc_text_has_no_body(text_of(*t, node as int));
            }
        }
        let n = t.node(node);
        let body = match line_comment_body(n.text.as_str()) {
            Some(b) => b,
            None => return Vec::new(),
        };
        if !starts_its_own_line(t, node) {
            return report(classify(body), n.start, n.end);
        }
        let group = match group_starting_at(t, node) {
            Some(g) => g,
            None => return Vec::new(),
        };
        let mut joined = String::new();
        let mut count: usize = 0;
        let mut k: usize = 0;
        while k < group.len()
            invariant
                t.valid(),
                forall|m: int| 0 <= m < group@.len() ==> #[trigger] group@[m] < t.size(),
                k <= group@.len(),
                count == bodies(*t, group@.subrange(0, k as int)).len(),
                count <= k,
                joined@ == nl_joined(bodies(*t, group@.subrange(0, k as int))),
            decreases group@.len() - k,
        {
            assert(group@.subrange(0, k + 1).drop_last() =~= group@.subrange(0, k as int));
            assert(group@.subrange(0, k + 1).last() == group@[k as int]);
            let ghost prev = bodies(*t, group@.subrange(0, k as int));
            proof {
                reveal_strlit("\n");
            }
            match line_comment_body(t.node(group[k]).text.as_str()) {
                Some(b) => {
                    if count > 0 {
                        append(&mut joined, "\n");
                    }
                    append(&mut joined, b);
                    let ghost now = prev + seq![b@];
                    assert(now.drop_last() =~= prev);
                    assert(now.last() == b@);
                    if count == 0 {
                        assert(now =~= seq![b@]);
                    } else {
                        assert(joined@ =~= nl_joined(prev) + seq!['\n'] + b@);
                    }
                    count += 1;
                },
                None => {
                    assert(prev + Seq::<Seq<char>>::empty() =~= prev);
                },
            }
            k += 1;
        }
        assert(group@.subrange(0, group@.len() as int) =~= group@);
        let last = t.node(group[group.len() - 1]);
        report(classify(joined.as_str()), n.start, last.end)
    }
}

} // verus!
