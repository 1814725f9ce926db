//! Flags comments that are not documentation
//!
//! Doc comments reach the published API docs, so the rule leaves them alone.
//! A plain comment reaches only whoever reads the source, and nothing keeps it
//! true as the code beside it changes.
use vstd::prelude::*;

use crate::diagnostic::{all_under, diag_view, diag_views, Diagnostic};
use crate::syntax::{child_by_field_name, field_child, first_position, kind_is, kind_of, position_of, text_of, SyntaxTree};

use crate::text::{
    chars_of, slice_of, strip_prefix, strip_prefix_at, strip_suffix, strip_suffix_at, trim,
    trim_at, trim_start, trim_start_at,
};

verus! {

broadcast use vstd::seq_lib::group_seq_properties;

/// Flags comments that are not documentation
///
/// The rule makes two exceptions. A `SAFETY:` comment stays because clippy
/// demands it. So does the comment that opens a file, which is usually a
/// license header. A run of comment lines produces one diagnostic that spans
/// the whole run.
pub struct NoInlineComments;

/// The shape of a flagged comment, which decides the advice the rule gives
#[derive(Copy, Clone, Eq, PartialEq, Debug)]
pub enum CommentKind {
    /// A horizontal rule, with or without a heading inside it
    Divider,
    /// Anything else the author wrote
    Prose,
}

/// What a comment holds, without its delimiters
pub open spec fn content_spec(text: Seq<char>) -> Seq<char> {
    let t = trim(text);
    match strip_prefix(t, seq!['/', '*']) {
        Some(rest) => match strip_suffix(rest, seq!['*', '/']) {
            Some(inner) => inner,
            None => rest,
        },
        None => match strip_prefix(t, seq!['/', '/']) {
            Some(rest) => rest,
            None => t,
        },
    }
}

/// The ASCII lowercase form of a character; others stay as they are
pub open spec fn ascii_lower(c: char) -> char {
    if 'A' <= c <= 'Z' {
        ((c as u8) + 32) as char
    } else {
        c
    }
}

/// The marker that clippy's `undocumented_unsafe_blocks` looks for
pub open spec fn safety_marker() -> Seq<char> {
    seq!['S', 'A', 'F', 'E', 'T', 'Y', ':']
}

/// Whether `t` opens with the safety marker, in any ASCII case
pub open spec fn opens_with_safety(t: Seq<char>) -> bool {
    t.len() >= 7 && forall|j: int|
        0 <= j < 7 ==> #[trigger] ascii_lower(t[j]) == ascii_lower(safety_marker()[j])
}

/// Whether a comment justifies an `unsafe` block
pub open spec fn safety_spec(text: Seq<char>) -> bool {
    opens_with_safety(trim_start(content_spec(text)))
}

/// The characters that authors use to draw a horizontal rule
pub open spec fn divider_char(c: char) -> bool {
    c == '-' || c == '=' || c == '*' || c == '~' || c == '#' || c == '_' || c == '+' || c == '/'
}

/// How many divider characters open `t`, counted from position `i`
pub open spec fn head_run(t: Seq<char>, i: int) -> nat
    decreases t.len() - i,
{
    if 0 <= i < t.len() && divider_char(t[i]) {
        1 + head_run(t, i + 1)
    } else {
        0
    }
}

/// How many divider characters close `t[..j]`
pub open spec fn tail_run(t: Seq<char>, j: int) -> nat
    decreases j,
{
    if 0 < j <= t.len() && divider_char(t[j - 1]) {
        1 + tail_run(t, j - 1)
    } else {
        0
    }
}

/// The shape of a comment, read from its own text
pub open spec fn kind_spec(text: Seq<char>) -> CommentKind {
    let c = trim(content_spec(text));
    if c.len() == 0 {
        CommentKind::Prose
    } else if forall|j: int| 0 <= j < c.len() ==> #[trigger] divider_char(c[j]) {
        CommentKind::Divider
    } else if head_run(c, 0) >= 3 && tail_run(c, c.len() as int) >= 3 {
        CommentKind::Divider
    } else {
        CommentKind::Prose
    }
}

/// Returns the range of `s` that holds what the comment `s` says
fn content_range(s: &[char]) -> (r: (usize, usize))
    ensures
        r.0 <= r.1 <= s@.len(),
        s@.subrange(r.0 as int, r.1 as int) == content_spec(s@),
{
    let n = s.len();
    assert(s@.subrange(0, n as int) =~= s@);
    let (a, b) = trim_at(s, 0, n);
    match strip_prefix_at(s, a, b, &['/', '*']) {
        Some(k) => match strip_suffix_at(s, k, b, &['*', '/']) {
            Some(j) => (k, j),
            None => (k, b),
        },
        None => match strip_prefix_at(s, a, b, &['/', '/']) {
            Some(k) => (k, b),
            None => (a, b),
        },
    }
}

/// Returns what a comment holds, without its delimiters
pub fn comment_content(text: &str) -> (r: &str)
    ensures
        r@ == content_spec(text@),
{
    let s = chars_of(text);
    let (a, b) = content_range(s.as_slice());
    slice_of(text, s.as_slice(), a, b)
}

fn lower(c: char) -> (r: char)
    ensures
        r == ascii_lower(c),
{
    if 'A' <= c && c <= 'Z' {
        ((c as u8) + 32) as char
    } else {
        c
    }
}

/// Returns whether the comment justifies an `unsafe` block
///
/// The check copies clippy's: the marker follows the comment punctuation and
/// any spaces, and its case does not matter.
pub fn is_safety_comment(text: &str) -> (r: bool)
    ensures
        r == safety_spec(text@),
{
    let s = chars_of(text);
    let (a, b) = content_range(s.as_slice());
    let c = trim_start_at(s.as_slice(), a, b);
    let ghost t = s@.subrange(c as int, b as int);
    if b - c < 7 {
        return false;
    }
    let marker: [char; 7] = ['S', 'A', 'F', 'E', 'T', 'Y', ':'];
    assert(marker@ =~= safety_marker());
    let mut j: usize = 0;
    while j < 7
        invariant
            c + 7 <= b <= s@.len(),
            t == s@.subrange(c as int, b as int),
            t == trim_start(content_spec(text@)),
            marker@ == safety_marker(),
            j <= 7,
            forall|k: int| 0 <= k < j ==> #[trigger] ascii_lower(t[k]) == ascii_lower(
                safety_marker()[k],
            ),
        decreases 7 - j,
    {
        if lower(s[c + j]) != lower(marker[j]) {
            assert(ascii_lower(t[j as int]) != ascii_lower(safety_marker()[j as int]));
            return false;
        }
        j += 1;
    }
    true
}

/// Returns the shape of a comment, read from its own text
pub fn classify(text: &str) -> (r: CommentKind)
    ensures
        r == kind_spec(text@),
{
    let s = chars_of(text);
    let (a0, b0) = content_range(s.as_slice());
    let (a, b) = trim_at(s.as_slice(), a0, b0);
    let ghost c = s@.subrange(a as int, b as int);
    if a == b {
        return CommentKind::Prose;
    }
    let mut head: usize = 0;
    while a + head < b && is_divider(s[a + head])
        invariant
            a <= b <= s@.len(),
            c == s@.subrange(a as int, b as int),
            a + head <= b,
            forall|k: int| 0 <= k < head ==> #[trigger] divider_char(c[k]),
            head_run(c, 0) == head + head_run(c, head as int),
        decreases b - a - head,
    {
        head += 1;
    }
    if a + head == b {
        return CommentKind::Divider;
    }
    assert(!divider_char(c[head as int]));
    let mut tail: usize = 0;
    while tail < b - a && is_divider(s[b - 1 - tail])
        invariant
            a <= b <= s@.len(),
            c == s@.subrange(a as int, b as int),
            tail <= b - a,
            tail_run(c, c.len() as int) == tail + tail_run(c, c.len() - tail),
        decreases b - a - tail,
    {
        tail += 1;
    }
    if head >= 3 && tail >= 3 {
        CommentKind::Divider
    } else {
        CommentKind::Prose
    }
}

fn is_divider(c: char) -> (r: bool)
    ensures
        r == divider_char(c),
{
    c == '-' || c == '=' || c == '*' || c == '~' || c == '#' || c == '_' || c == '+' || c == '/'
}


/// Whether comment `n` carries a documentation marker, in its `outer` or
/// `inner` field: `///`, `//!`, `/** */`, or `/*! */`
pub open spec fn doc_spec(t: SyntaxTree, n: int) -> bool {
    field_child(t, n, "outer"@) is Some || field_child(t, n, "inner"@) is Some
}

/// Whether node `n` is a comment without a documentation marker
pub open spec fn plain_spec(t: SyntaxTree, n: int) -> bool {
    (kind_of(t, n) == "line_comment"@ || kind_of(t, n) == "block_comment"@) && !doc_spec(t, n)
}

/// The sibling just before node `n`, named or not
pub open spec fn prev_sibling(t: SyntaxTree, n: int) -> Option<usize> {
    match t.parent_of(n) {
        None => None,
        Some(p) => match first_position(t.children_of(p as int), n as usize, 0) {
            Some(ix) => if ix > 0 {
                Some(t.children_of(p as int)[ix - 1])
            } else {
                None
            },
            None => None,
        },
    }
}

/// Whether comment `n` opens the file: the first node under `source_file`
pub open spec fn header_spec(t: SyntaxTree, n: int) -> bool {
    match t.parent_of(n) {
        None => false,
        Some(p) => kind_of(t, p as int) == "source_file"@ && prev_sibling(t, n) is None,
    }
}

/// Whether comment `n` belongs to a run that starts above it: the sibling
/// before it is a plain comment on the row above
pub open spec fn continues_spec(t: SyntaxTree, n: int) -> bool {
    match prev_sibling(t, n) {
        None => false,
        Some(q) => plain_spec(t, q as int) && t.node_at(q as int).end_row + 1 == t.node_at(n).start_row,
    }
}

/// Whether `next` joins the run that ends at `last`: a plain comment on the
/// row below that is no safety comment
pub open spec fn joins_spec(t: SyntaxTree, last: int, next: int) -> bool {
    &&& plain_spec(t, next)
    &&& t.node_at(last).end_row + 1 == t.node_at(next).start_row
    &&& !safety_spec(text_of(t, next))
}

/// The index among `kids` of the last comment of the run that `kids[j]`
/// opens
pub open spec fn run_last(t: SyntaxTree, kids: Seq<usize>, j: int) -> int
    decreases kids.len() - j,
{
    if j < 0 || j + 1 >= kids.len() {
        j
    } else if joins_spec(t, kids[j] as int, kids[j + 1] as int) {
        run_last(t, kids, j + 1)
    } else {
        j
    }
}

/// The end byte of the run of comments that node `n`, under `p`, opens
pub open spec fn run_end_spec(t: SyntaxTree, p: int, n: int) -> usize {
    let kids = t.children_of(p);
    match first_position(kids, n as usize, 0) {
        Some(ix) => t.node_at(kids[run_last(t, kids, ix)] as int).end,
        None => t.node_at(n).end,
    }
}

/// What the rule says of a comment of kind `k`
pub open spec fn kind_message(k: CommentKind) -> Seq<char> {
    match k {
        CommentKind::Divider => "remove this section divider"@,
        CommentKind::Prose => "remove this comment or move what it explains into a doc comment"@,
    }
}

/// What the rule reports of the comment node `n`
pub open spec fn inline_findings(t: SyntaxTree, n: int) -> Seq<(Seq<char>, Seq<char>, usize, usize)> {
    if doc_spec(t, n) || safety_spec(text_of(t, n)) || header_spec(t, n) || continues_spec(t, n) {
        Seq::empty()
    } else {
        match t.parent_of(n) {
            None => Seq::empty(),
            Some(p) => seq![
                (
                    "lint.no-inline-comments"@,
                    kind_message(kind_spec(text_of(t, n))),
                    t.node_at(n).start,
                    run_end_spec(t, p as int, n),
                ),
            ],
        }
    }
}

/// Returns whether the comment carries a documentation marker
///
/// The grammar records the marker in the `outer` or `inner` field, which
/// covers `///`, `//!`, `/** */`, and `/*! */`. A bare `///` counts as
/// documentation even though it says nothing.
pub fn is_doc_comment(t: &SyntaxTree, n: usize) -> (r: bool)
    requires
        t.valid(),
        n < t.size(),
    ensures
        r == doc_spec(*t, n as int),
{
    child_by_field_name(t, n, "outer").is_some() || child_by_field_name(t, n, "inner").is_some()
}

/// Returns whether the node is a comment without a documentation marker
pub fn is_plain_comment(t: &SyntaxTree, n: usize) -> (r: bool)
    requires
        t.valid(),
        n < t.size(),
    ensures
        r == plain_spec(*t, n as int),
{
    (kind_is(t, n, "line_comment") || kind_is(t, n, "block_comment")) && !is_doc_comment(t, n)
}

/// Returns the sibling just before `n`, named or not
fn previous_sibling(t: &SyntaxTree, n: usize) -> (r: Option<usize>)
    requires
        t.valid(),
        n < t.size(),
    ensures
        r == prev_sibling(*t, n as int),
        match r {
            Some(q) => q < t.size(),
            None => true,
        },
{
    let p = match t.parent(n) {
        Some(p) => p,
        None => return None,
    };
    let kids = t.children(p);
    match position_of(kids, n) {
        Some(ix) => if ix > 0 {
            Some(kids[ix - 1])
        } else {
            None
        },
        None => None,
    }
}

/// Returns whether the comment opens the file
///
/// A copyright or license header sits above everything else, and the tree
/// puts it first under `source_file`. The check is structural, so it exempts
/// whatever opens the file, header or not. The rule still reports every
/// later run.
pub fn is_file_header(t: &SyntaxTree, n: usize) -> (r: bool)
    requires
        t.valid(),
        n < t.size(),
    ensures
        r == header_spec(*t, n as int),
{
    match t.parent(n) {
        Some(p) => kind_is(t, p, "source_file") && previous_sibling(t, n).is_none(),
        None => false,
    }
}

/// Returns whether this comment belongs to a run that starts above it
///
/// Comments in a run are siblings with one line break between them. The
/// rule reports a run at most once, at its first comment, so the ones below
/// it produce no diagnostic.
pub fn continues_run(t: &SyntaxTree, n: usize) -> (r: bool)
    requires
        t.valid(),
        n < t.size(),
    ensures
        r == continues_spec(*t, n as int),
{
    match previous_sibling(t, n) {
        Some(q) => {
            let a = t.node(q).end_row;
            let b = t.node(n).start_row;
            is_plain_comment(t, q) && a < b && a + 1 == b
        },
        None => false,
    }
}

/// Returns the end byte of the comment run that starts at node `n`, whose
/// parent is `p`
///
/// The run stops short of a safety comment, so no diagnostic spans one.
pub fn run_end(t: &SyntaxTree, p: usize, n: usize) -> (r: usize)
    requires
        t.valid(),
        p < t.size(),
        n < t.size(),
    ensures
        r == run_end_spec(*t, p as int, n as int),
{
    let kids = t.children(p);
    let ix = match position_of(kids, n) {
        Some(i) => i,
        None => return t.node(n).end,
    };
    let mut j = ix;
    loop
        invariant_except_break
            run_last(*t, kids@, ix as int) == run_last(*t, kids@, j as int),
        invariant
            t.valid(),
            kids@ == t.children_of(p as int),
            forall|m: int| 0 <= m < kids@.len() ==> #[trigger] kids@[m] < t.size(),
            ix <= j < kids@.len(),
        ensures
            run_last(*t, kids@, ix as int) == j,
            j < kids@.len(),
        decreases kids@.len() - j,
    {
        if kids.len() - j <= 1 {
            break;
        }
        let last = kids[j];
        let next = kids[j + 1];
        let a = t.node(last).end_row;
        let b = t.node(next).start_row;
        let joins = is_plain_comment(t, next) && a < b && a + 1 == b && !is_safety_comment(
            t.node(next).text.as_str(),
        );
        if !joins {
            break;
        }
        j += 1;
    }
    t.node(kids[j]).end
}

impl NoInlineComments {
    /// Checks one comment: a plain comment gets a warning spanning the run
    /// of comment lines it opens, unless it is a safety comment, opens the
    /// file, or continues a run above it
    pub fn check_comment(&self, t: &SyntaxTree, node: usize) -> (r: Vec<Diagnostic>)
        requires
            t.valid(),
            node < t.size(),
        ensures
            doc_spec(*t, node as int) || safety_spec(text_of(*t, node as int)) || header_spec(*t, node as int)
                || continues_spec(*t, node as int) ==> r@.len() == 0,
            r@.len() <= 1,
            all_under(diag_views(r@), "lint.no-inline-comments"@),
            diag_views(r@) == inline_findings(*t, node as int),
    {
        let mut out: Vec<Diagnostic> = Vec::new();
        assert(diag_views(out@) =~= Seq::empty());
        let text = t.node(node).text.as_str();
        if is_doc_comment(t, node) || is_safety_comment(text) || is_file_header(t, node) || continues_run(
            t,
            node,
        ) {
            return out;
        }
        let p = match t.parent(node) {
            Some(p) => p,
            None => return out,
        };
        let end = run_end(t, p, node);
        let message = match classify(text) {
            CommentKind::Divider => "remove this section divider",
            CommentKind::Prose => "remove this comment or move what it explains into a doc comment",
        };
        let d = Diagnostic::new("lint.no-inline-comments", message.to_owned(), t.node(node).start, end);
        out.push(d);
        assert(diag_views(out@) =~= seq![diag_view(d)]);
        out
    }

    /// Checks a `/* */` comment
    pub fn check_block_comment(&self, t: &SyntaxTree, node: usize) -> (r: Vec<Diagnostic>)
        requires
            t.valid(),
            node < t.size(),
        ensures
            doc_spec(*t, node as int) || safety_spec(text_of(*t, node as int)) || header_spec(*t, node as int)
                || continues_spec(*t, node as int) ==> r@.len() == 0,
            r@.len() <= 1,
            all_under(diag_views(r@), "lint.no-inline-comments"@),
            diag_views(r@) == inline_findings(*t, node as int),
    {
        self.check_comment(t, node)
    }

    /// Checks a `//` comment
    pub fn check_line_comment(&self, t: &SyntaxTree, node: usize) -> (r: Vec<Diagnostic>)
        requires
            t.valid(),
            node < t.size(),
        ensures
            doc_spec(*t, node as int) || safety_spec(text_of(*t, node as int)) || header_spec(*t, node as int)
                || continues_spec(*t, node as int) ==> r@.len() == 0,
            r@.len() <= 1,
            all_under(diag_views(r@), "lint.no-inline-comments"@),
            diag_views(r@) == inline_findings(*t, node as int),
    {
        self.check_comment(t, node)
    }
}

} // verus!
