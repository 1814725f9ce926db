//! Flags `TODO`, `FIXME`, `HACK`, and `XXX` markers in comments
//!
//! A marker left in the source is invisible to anyone who does not open that
//! file, so the work is easy to lose. The issue tracker holds that work
//! instead.
use vstd::prelude::*;

use crate::diagnostic::{all_under, diag_view, diag_views, Diagnostic};
use crate::syntax::{text_of, SyntaxTree};

use crate::text::{
    alphanumeric, append, byte_len, char_is_alphanumeric, chars_of, find_char, find_from, lemma_find_from,
    lemma_utf8_size_mono, lemma_utf8_size_split, matches_at, starts_with, strip_prefix,
    text_chars, trim_start, trim_start_at, utf8_size,
};

verus! {

broadcast use vstd::seq_lib::group_seq_properties;

/// Flags `TODO`, `FIXME`, `HACK`, and `XXX` markers in comments
///
/// The rule matches an uppercase marker at the start of a comment line and
/// nowhere else. A sentence or a URL that contains the word does not match.
pub struct NoTodoComments;

/// A marker that a comment contains
///
/// The offset counts bytes from the start of the comment, so a caller adds
/// the comment's own start to reach a file offset.
#[derive(Copy, Clone, Eq, PartialEq, Debug)]
pub struct FoundMarker {
    pub offset: usize,
    pub marker: &'static str,
}

/// What a found marker says: its byte offset and its word
pub open spec fn marker_view(m: FoundMarker) -> (usize, Seq<char>) {
    (m.offset, m.marker@)
}

/// Whether `rest` starts at a word boundary
///
/// `TODOS` must not match, so `rest` must be empty or start with a character
/// that is not a letter, a digit, or an underscore.
pub open spec fn word_break(rest: Seq<char>) -> bool {
    rest.len() == 0 || (!alphanumeric(rest[0]) && rest[0] != '_')
}

/// Whether `content` opens with the marker `m` followed by a word boundary
pub open spec fn opens_with(content: Seq<char>, m: Seq<char>) -> bool {
    match strip_prefix(content, m) {
        Some(rest) => word_break(rest),
        None => false,
    }
}

/// The marker that opens `content`, tried in the order the rule lists them
pub open spec fn marker_of(content: Seq<char>) -> Option<Seq<char>> {
    if opens_with(content, "TODO"@) {
        Some("TODO"@)
    } else if opens_with(content, "FIXME"@) {
        Some("FIXME"@)
    } else if opens_with(content, "HACK"@) {
        Some("HACK"@)
    } else if opens_with(content, "XXX"@) {
        Some("XXX"@)
    } else {
        None
    }
}

/// The markers, in the order the rule tries them
pub open spec fn markers() -> Seq<Seq<char>> {
    seq!["TODO"@, "FIXME"@, "HACK"@, "XXX"@]
}

/// At most one marker can open a line
///
/// No marker is a prefix of another; indeed no two of them share their
/// first letter. So the order in which the rule tries them never decides
/// which one a line reports.
pub proof fn law_one_marker_per_line(content: Seq<char>, i: int, j: int)
    requires
        0 <= i < j < markers().len(),
    ensures
        !(opens_with(content, markers()[i]) && opens_with(content, markers()[j])),
{
    reveal_strlit("TODO");
    reveal_strlit("FIXME");
    reveal_strlit("HACK");
    reveal_strlit("XXX");
    let a = markers()[i];
    let b = markers()[j];
    if opens_with(content, a) && opens_with(content, b) {
        assert(content.subrange(0, a.len() as int)[0] == a[0]);
        assert(content.subrange(0, b.len() as int)[0] == b[0]);
        assert(a[0] != b[0]);
    }
}

/// Whether a character is comment punctuation that the scan skips
pub open spec fn comment_punct(c: char) -> bool {
    c == '/' || c == '*' || c == '!'
}

/// The position of the first character at or after `i` that is not comment
/// punctuation
pub open spec fn punct_end(t: Seq<char>, i: int) -> int
    decreases t.len() - i,
{
    if 0 <= i < t.len() && comment_punct(t[i]) {
        punct_end(t, i + 1)
    } else {
        i
    }
}

/// What a line holds once whitespace, comment punctuation, and whitespace
/// again are trimmed from its start
pub open spec fn content_of(line: Seq<char>) -> Seq<char> {
    let a = trim_start(line);
    trim_start(a.subrange(punct_end(a, 0), a.len() as int))
}

/// Where the line that starts at `i` ends, its newline included
pub open spec fn line_end(t: Seq<char>, i: int) -> int {
    let k = find_from(t, '\n', i, t.len() as int);
    if k < 0 {
        t.len() as int
    } else {
        k + 1
    }
}

/// The markers that open the lines of `t` from position `i` on, each with the
/// byte offset of its first character
pub open spec fn markers_from(t: Seq<char>, i: int) -> Seq<(usize, Seq<char>)>
    decreases t.len() - i,
{
    if i < 0 || i >= t.len() {
        Seq::empty()
    } else {
        let e = line_end(t, i);
        let c = content_of(t.subrange(i, e));
        proof {
            lemma_find_from(t, '\n', i, t.len() as int);
        }
        (match marker_of(c) {
            Some(m) => seq![(utf8_size(t.subrange(0, e - c.len())) as usize, m)],
            None => Seq::empty(),
        }) + markers_from(t, e)
    }
}

/// Returns whether `rest` starts at a word boundary
pub fn is_word_break(rest: &str) -> (r: bool)
    ensures
        r == word_break(rest@),
{
    if rest.is_empty() {
        return true;
    }
    let c = rest.get_char(0);
    !char_is_alphanumeric(c) && c != '_'
}

fn word_break_at(s: &[char], k: usize, e: usize) -> (r: bool)
    requires
        k <= e <= s@.len(),
    ensures
        r == word_break(s@.subrange(k as int, e as int)),
{
    if k == e {
        return true;
    }
    let c = s[k];
    !char_is_alphanumeric(c) && c != '_'
}

proof fn lemma_punct_end_shift(s: Seq<char>, a: int, b: int, k: int)
    requires
        0 <= a <= k <= b <= s.len(),
        forall|j: int| a <= j < k ==> comment_punct(s[j]),
    ensures
        punct_end(s.subrange(a, b), 0) == punct_end(s.subrange(a, b), k - a),
    decreases k - a,
{
    if k > a {
        lemma_punct_end_shift(s, a, b, k - 1);
    }
}

/// Returns where the content of the line `s[i..e]` starts
fn content_start(s: &[char], i: usize, e: usize) -> (r: usize)
    requires
        i <= e <= s@.len(),
    ensures
        i <= r <= e,
        s@.subrange(r as int, e as int) == content_of(s@.subrange(i as int, e as int)),
{
    let a = trim_start_at(s, i, e);
    let mut k = a;
    while k < e && (s[k] == '/' || s[k] == '*' || s[k] == '!')
        invariant
            a <= k <= e <= s@.len(),
            forall|j: int| a <= j < k ==> comment_punct(s@[j]),
        decreases e - k,
    {
        k += 1;
    }
    proof {
        let t = s@.subrange(a as int, e as int);
        lemma_punct_end_shift(s@, a as int, e as int, k as int);
        assert(punct_end(t, k - a) == k - a);
        assert(t.subrange(k - a, t.len() as int) =~= s@.subrange(k as int, e as int));
    }
    trim_start_at(s, k, e)
}

/// Returns whether `s[c..e]` opens with `word` and a word boundary
fn opens_at(s: &[char], c: usize, e: usize, word: &str) -> (r: bool)
    requires
        c <= e <= s@.len(),
    ensures
        r == opens_with(s@.subrange(c as int, e as int), word@),
{
    let w = chars_of(word);
    let ghost t = s@.subrange(c as int, e as int);
    if w.len() > e - c {
        return false;
    }
    if !matches_at(s, c, w.as_slice()) {
        assert(t.subrange(0, w@.len() as int) =~= s@.subrange(c as int, c + w@.len()));
        return false;
    }
    assert(t.subrange(0, w@.len() as int) =~= s@.subrange(c as int, c + w@.len()));
    assert(t.subrange(w@.len() as int, t.len() as int) =~= s@.subrange(c + w@.len(), e as int));
    word_break_at(s, c + w.len(), e)
}

/// Returns each marker that starts a line of `text`, with its byte offset
///
/// The scan reads one line at a time. It removes the leading whitespace, the
/// comment punctuation (`/`, `*`, and `!`), and the whitespace again. Then it
/// checks whether what remains starts with a marker. The punctuation trim
/// stops at the first character that is not `/`, `*`, or `!`, so `/// // TODO`
/// keeps its inner `//` and does not match.
pub fn find_markers(text: &str) -> (r: Vec<FoundMarker>)
    ensures
        r@.map_values(|m: FoundMarker| marker_view(m)) == markers_from(text@, 0),
        forall|k: int| 0 <= k < r@.len() ==> #[trigger] r@[k].offset + utf8_size(r@[k].marker@) <= utf8_size(text@),
{
    let s = text_chars(text);
    let n = s.len();
    let mut found: Vec<FoundMarker> = Vec::new();
    let mut i: usize = 0;
    let mut line_start: usize = 0;
    while i < n
        invariant
            n == s@.len(),
            s@ == text@,
            utf8_size(s@) <= usize::MAX,
            i <= n,
            line_start == utf8_size(s@.subrange(0, i as int)),
            found@.map_values(|m: FoundMarker| marker_view(m)) + markers_from(s@, i as int)
                == markers_from(s@, 0),
            forall|k: int| 0 <= k < found@.len() ==> #[trigger] found@[k].offset + utf8_size(found@[k].marker@) <= utf8_size(s@),
        decreases n - i,
    {
        proof {
            lemma_find_from(s@, '\n', i as int, n as int);
        }
        let e = match find_char(s.as_slice(), '\n', i, n) {
            Some(k) => k + 1,
            None => n,
        };
        let c = content_start(s.as_slice(), i, e);
        let ghost content = s@.subrange(c as int, e as int);
        assert(s@.subrange(0, n as int) =~= s@);
        proof {
            lemma_utf8_size_mono(s@, 0, e as int, n as int);
            lemma_utf8_size_mono(s@, 0, c as int, e as int);
            lemma_utf8_size_split(s@, 0, i as int, c as int);
            lemma_utf8_size_split(s@, 0, i as int, e as int);
            lemma_utf8_size_mono(s@, i as int, c as int, e as int);
            assert(e - content.len() == c);
        }
        let ghost before = found@.map_values(|m: FoundMarker| marker_view(m));
        let marker: Option<&'static str> = if opens_at(s.as_slice(), c, e, "TODO") {
            Some("TODO")
        } else if opens_at(s.as_slice(), c, e, "FIXME") {
            Some("FIXME")
        } else if opens_at(s.as_slice(), c, e, "HACK") {
            Some("HACK")
        } else if opens_at(s.as_slice(), c, e, "XXX") {
            Some("XXX")
        } else {
            None
        };
        match marker {
            Some(word) => {
                proof {
                    let w = word@;
                    assert(opens_with(content, w));
                    assert(content.subrange(0, w.len() as int) == w);
                    assert(s@.subrange(c as int, c + w.len()) =~= w);
                    lemma_utf8_size_split(s@, 0, c as int, c + w.len());
                    lemma_utf8_size_mono(s@, 0, c + w.len(), n as int);
                }
                let offset = line_start + byte_len(s.as_slice(), i, c);
                found.push(FoundMarker { offset, marker: word });
                assert(found@.map_values(|m: FoundMarker| marker_view(m)) =~= before + seq![
                    (offset, word@),
                ]);
            },
            None => {},
        }
        line_start = line_start + byte_len(s.as_slice(), i, e);
        i = e;
    }
    found
}


/// What the rule reports of a comment with the text `text` that starts at
/// byte `start`: a warning spanning each marker that opens a line
pub open spec fn todo_findings(text: Seq<char>, start: usize) -> Seq<(Seq<char>, Seq<char>, usize, usize)> {
    markers_from(text, 0).map_values(
        |m: (usize, Seq<char>)|
            (
                "lint.no-todo-comments"@,
                "`"@ + m.1 + "` comment: track this work in the issue tracker instead"@,
                (start + m.0) as usize,
                (start + m.0 + utf8_size(m.1)) as usize,
            ),
    )
}

/// Returns one diagnostic for each marker in the comment `node`
///
/// Tree-sitter nests a `doc_comment` node inside the `line_comment` or
/// `block_comment` that carries it, and a walk visits both. The rule looks
/// at the outer two kinds only, because looking at the inner one as well
/// would report every marker in a doc comment twice.
pub fn check_comment(t: &SyntaxTree, node: usize) -> (r: Vec<Diagnostic>)
    requires
        t.valid(),
        node < t.size(),
    ensures
        all_under(diag_views(r@), "lint.no-todo-comments"@),
        diag_views(r@) == todo_findings(text_of(*t, node as int), t.node_at(node as int).start),
{
    let n = t.node(node);
    proof {
        t.lemma_ranges(node as int);
    }
    let found = find_markers(n.text.as_str());
    let ghost ms = markers_from(n.text@, 0);
    assert(ms.len() == found@.len());
    let mut out: Vec<Diagnostic> = Vec::new();
    let mut k: usize = 0;
    while k < found.len()
        invariant
            ms == markers_from(n.text@, 0),
            found@.map_values(|m: FoundMarker| marker_view(m)) == ms,
            forall|j: int| 0 <= j < found@.len() ==> #[trigger] found@[j].offset + utf8_size(found@[j].marker@) <= utf8_size(n.text@),
            n.start + utf8_size(n.text@) <= usize::MAX,
            k <= found@.len(),
            todo_findings(n.text@, n.start).len() == found@.len(),
            diag_views(out@) == todo_findings(n.text@, n.start).subrange(0, k as int),
        decreases found@.len() - k,
    {
        let m = found[k];
        assert(ms[k as int] == marker_view(m));
        let size = m.marker.as_bytes().len();
        assert(size == utf8_size(m.marker@));
        let begin = n.start + m.offset;
        let mut message = String::new();
        append(&mut message, "`");
        append(&mut message, m.marker);
        append(&mut message, "` comment: track this work in the issue tracker instead");
        let d = Diagnostic::new("lint.no-todo-comments", message, begin, begin + size);
        assert(message@ =~= "`"@ + m.marker@ + "` comment: track this work in the issue tracker instead"@);
        assert(begin == (n.start + ms[k as int].0) as usize);
        assert(begin + size == (n.start + ms[k as int].0 + utf8_size(ms[k as int].1)) as usize);
        assert(todo_findings(n.text@, n.start)[k as int] == diag_view(d));
        let ghost before = diag_views(out@);
        out.push(d);
        assert(diag_views(out@) =~= before.push(diag_view(d)));
        assert(todo_findings(n.text@, n.start).subrange(0, k + 1) =~= todo_findings(n.text@, n.start).subrange(0, k as int).push(diag_view(d)));
        k += 1;
    }
    assert(todo_findings(n.text@, n.start).subrange(0, k as int) =~= todo_findings(n.text@, n.start));
    out
}

impl NoTodoComments {
    /// Checks a `/* */` comment
    pub fn check_block_comment(&self, t: &SyntaxTree, node: usize) -> (r: Vec<Diagnostic>)
        requires
            t.valid(),
            node < t.size(),
        ensures
            all_under(diag_views(r@), "lint.no-todo-comments"@),
            diag_views(r@) == todo_findings(text_of(*t, node as int), t.node_at(node as int).start),
    {
        check_comment(t, node)
    }

    /// Checks a `//` comment
    pub fn check_line_comment(&self, t: &SyntaxTree, node: usize) -> (r: Vec<Diagnostic>)
        requires
            t.valid(),
            node < t.size(),
        ensures
            all_under(diag_views(r@), "lint.no-todo-comments"@),
            diag_views(r@) == todo_findings(text_of(*t, node as int), t.node_at(node as int).start),
    {
        check_comment(t, node)
    }
}

} // verus!
