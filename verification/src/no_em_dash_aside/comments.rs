//! Reading the Markdown lines of a doc comment out of the syntax tree
//!
//! A block doc comment holds all its lines in one node. The grammar gives
//! every `///` line its own node instead, so one code fence spans several of
//! them, and the lint reads the whole run at once.
use vstd::prelude::*;

use crate::no_em_dash_aside::markdown::{
    all_fit, line_fits, line_view, line_views, star_spec, strip_star, unindent, unindent_spec,
    DocLine,
};
use crate::reference_style_links::doc_block::{body_lines, body_of, push_lines, trimmed_body};
use crate::syntax::{
    child_by_field_name, field_child, kind_is, kind_of, lemma_named_sorted, named_child, named_child_spec, named_children,
    named_children_of, text_of, SyntaxTree,
};
use crate::text::{all_whitespace, all_ws, chars_of, char_width, lemma_utf8_size_push, slice_of, utf8_size, width};

verus! {

broadcast use vstd::seq_lib::group_seq_properties;

/// Which pair of markers introduces a doc comment
#[derive(Copy, Clone, Eq, PartialEq, Debug, Structural)]
pub enum DocMarker {
    /// `//!` or `/*!`, which documents the enclosing item
    Inner,
    /// `///` or `/**`, which documents the item that follows
    Outer,
}

/// The marker of a doc comment of either shape at node `i`
pub open spec fn marker_spec(t: SyntaxTree, i: int) -> Option<DocMarker> {
    if field_child(t, i, "doc"@) is None {
        None
    } else if field_child(t, i, "outer"@) is Some {
        Some(DocMarker::Outer)
    } else if field_child(t, i, "inner"@) is Some {
        Some(DocMarker::Inner)
    } else {
        None
    }
}

/// The marker of a `///` or `//!` line at node `i`
pub open spec fn line_marker_spec(t: SyntaxTree, i: int) -> Option<DocMarker> {
    if kind_of(t, i) != "line_comment"@ {
        None
    } else {
        marker_spec(t, i)
    }
}

/// Returns the marker of a doc comment of either shape
pub fn doc_marker(t: &SyntaxTree, node: usize) -> (r: Option<DocMarker>)
    requires
        t.valid(),
        node < t.size(),
    ensures
        r == marker_spec(*t, node as int),
{
    if child_by_field_name(t, node, "doc").is_none() {
        return None;
    }
    if child_by_field_name(t, node, "outer").is_some() {
        return Some(DocMarker::Outer);
    }
    if child_by_field_name(t, node, "inner").is_some() {
        return Some(DocMarker::Inner);
    }
    None
}

/// Returns the marker of a `///` or `//!` comment
pub fn line_doc_marker(t: &SyntaxTree, node: usize) -> (r: Option<DocMarker>)
    requires
        t.valid(),
        node < t.size(),
    ensures
        r == line_marker_spec(*t, node as int),
{
    if !kind_is(t, node, "line_comment") {
        return None;
    }
    doc_marker(t, node)
}

/// The lines of a block doc comment at node `i`, before rustdoc drops their
/// shared indentation
pub open spec fn block_lines_raw(t: SyntaxTree, d: int) -> Seq<(Seq<char>, usize)> {
    body_lines(text_of(t, d), t.node_at(d).start as int).map_values(
        |l: (Seq<char>, usize)| star_spec(l),
    )
}

/// The Markdown lines of a block doc comment at node `i`; [`None`] for
/// `/* */`, which carries no documentation
pub open spec fn block_spec(t: SyntaxTree, i: int) -> Option<Seq<(Seq<char>, usize)>> {
    if kind_of(t, i) != "block_comment"@ || marker_spec(t, i) is None {
        None
    } else {
        match field_child(t, i, "doc"@) {
            None => None,
            Some(d) => Some(unindent_spec(block_lines_raw(t, d as int))),
        }
    }
}

/// Returns the Markdown lines of a block doc comment
///
/// Returns [`None`] for `/* */`, which carries no documentation.
pub fn block_comment_lines<'a>(t: &'a SyntaxTree, node: usize) -> (r: Option<Vec<DocLine<'a>>>)
    requires
        t.valid(),
        node < t.size(),
    ensures
        match r {
            Some(lines) => block_spec(*t, node as int) == Some(line_views(lines@)) && all_fit(
                line_views(lines@),
            ),
            None => block_spec(*t, node as int) is None,
        },
{
    if !kind_is(t, node, "block_comment") {
        return None;
    }
    if doc_marker(t, node).is_none() {
        return None;
    }
    let doc = match child_by_field_name(t, node, "doc") {
        Some(d) => d,
        None => return None,
    };
    let n = t.node(doc);
    proof {
        t.lemma_ranges(doc as int);
    }
    let mut raw: Vec<DocLine<'a>> = Vec::new();
    push_lines(&mut raw, n.text.as_str(), n.start, false);
    assert(trimmed_body(n.text@, false) == n.text@);
    let ghost split = line_views(raw@);
    assert(split =~= body_lines(text_of(*t, doc as int), t.node_at(doc as int).start as int));
    assert forall|m: int| 0 <= m < split.len() implies #[trigger] line_fits(split[m]) by {
        assert(line_fits(line_view(raw@[m])));
    }
    let mut k: usize = 0;
    while k < raw.len()
        invariant
            raw@.len() == split.len(),
            forall|m: int| 0 <= m < split.len() ==> #[trigger] line_fits(split[m]),
            k <= raw@.len(),
            forall|m: int| 0 <= m < k ==> #[trigger] line_view(raw@[m]) == star_spec(split[m]),
            forall|m: int| k <= m < raw@.len() ==> #[trigger] line_view(raw@[m]) == split[m],
            forall|m: int| 0 <= m < k ==> #[trigger] line_fits(line_view(raw@[m])),
        decreases raw@.len() - k,
    {
        let line = raw[k];
        assert(line_view(line) == split[k as int]);
        let stripped = strip_star(line);
        raw.set(k, stripped);
        k += 1;
    }
    assert(line_views(raw@) =~= block_lines_raw(*t, doc as int));
    assert(all_fit(line_views(raw@))) by {
        assert forall|m: int| 0 <= m < line_views(raw@).len() implies #[trigger] line_fits(line_views(raw@)[m]) by {
            assert(line_fits(line_view(raw@[m])));
        }
    }
    unindent(&mut raw);
    Some(raw)
}

/// The documented text of one `///` line at node `i`, without its line
/// break, and the file offset of its first byte
pub open spec fn doc_line_spec(t: SyntaxTree, i: int) -> Option<(Seq<char>, usize)> {
    match field_child(t, i, "doc"@) {
        None => None,
        Some(d) => Some((body_of(text_of(t, d as int)), t.node_at(d as int).start)),
    }
}

/// Returns the documented text of one `///` line, without its newline
pub fn doc_line<'a>(t: &'a SyntaxTree, node: usize) -> (r: Option<DocLine<'a>>)
    requires
        t.valid(),
        node < t.size(),
    ensures
        match r {
            Some(line) => doc_line_spec(*t, node as int) == Some(line_view(line)) && line_fits(
                line_view(line),
            ),
            None => doc_line_spec(*t, node as int) is None,
        },
{
    let doc = match child_by_field_name(t, node, "doc") {
        Some(d) => d,
        None => return None,
    };
    let n = t.node(doc);
    proof {
        t.lemma_ranges(doc as int);
    }
    let s = crate::text::text_chars(n.text.as_str());
    let len = s.len();
    let mut b = len;
    if b > 0 && s[b - 1] == '\n' {
        b -= 1;
    }
    if b > 0 && s[b - 1] == '\r' {
        b -= 1;
    }
    proof {
        let tx = s@;
        assert(tx.subrange(0, len as int) =~= tx);
        crate::text::lemma_strip_last(tx, '\n');
        let a1 = match crate::text::strip_suffix(tx, seq!['\n']) {
            Some(x) => x,
            None => tx,
        };
        crate::text::lemma_strip_last(a1, '\r');
        assert(body_of(tx) =~= s@.subrange(0, b as int));
        crate::text::lemma_utf8_size_mono(s@, 0, b as int, len as int);
    }
    Some(DocLine { text: slice_of(n.text.as_str(), s.as_slice(), 0, b), offset: n.start })
}


/// The first of `named[k..]` that starts at or after byte `s`
pub open spec fn first_at_least(t: SyntaxTree, named: Seq<usize>, s: int, k: int) -> int
    decreases named.len() - k,
{
    if k < 0 || k >= named.len() {
        named.len() as int
    } else if t.node_at(named[k] as int).start >= s {
        k
    } else {
        first_at_least(t, named, s, k + 1)
    }
}

/// The position of `node` among `named[k..]`, walking while the siblings
/// start at byte `s`
pub open spec fn same_start_from(t: SyntaxTree, named: Seq<usize>, k: int, node: usize, s: int) -> Option<usize>
    decreases named.len() - k,
{
    if k < 0 || k >= named.len() || k > 4294967295 {
        None
    } else if t.node_at(named[k] as int).start != s {
        None
    } else if named[k] == node {
        Some(k as usize)
    } else {
        same_start_from(t, named, k + 1, node, s)
    }
}

/// The position of `node` among the named children of `parent`
pub open spec fn sibling_spec(t: SyntaxTree, parent: int, node: int) -> Option<usize> {
    let named = named_children_of(t, parent);
    let s = t.node_at(node).start as int;
    same_start_from(t, named, first_at_least(t, named, s, 0), node as usize, s)
}

proof fn lemma_first_at_least(t: SyntaxTree, named: Seq<usize>, s: int, k: int, low: int)
    requires
        0 <= k <= low <= named.len(),
        forall|j: int| 0 <= j < low ==> #[trigger] t.node_at(named[j] as int).start < s,
        low == named.len() || t.node_at(named[low] as int).start >= s,
    ensures
        first_at_least(t, named, s, k) == low,
    decreases low - k,
{
    if k < low {
        lemma_first_at_least(t, named, s, k + 1, low);
    }
}

/// Returns the position of `node` among the named children of `parent`
///
/// Named children are ordered by start byte, which makes the position a
/// binary search. Nodes may share a start byte only when one of them is
/// empty, so the search settles on the first child at that byte and steps
/// forward to `node`.
pub fn sibling_index(t: &SyntaxTree, parent: usize, node: usize) -> (r: Option<usize>)
    requires
        t.valid(),
        parent < t.size(),
        node < t.size(),
    ensures
        r == sibling_spec(*t, parent as int, node as int),
        match r {
            Some(k) => k < named_children_of(*t, parent as int).len(),
            None => true,
        },
{
    let named = named_children(t, parent);
    proof {
        lemma_named_sorted(*t, parent as int);
        t.lemma_children(parent as int);
    }
    let start = t.node(node).start;
    let count = named.len();
    let mut low: usize = 0;
    let mut high: usize = count;
    while low < high
        invariant
            named@ == named_children_of(*t, parent as int),
            count == named@.len(),
            forall|m: int| 0 <= m < named@.len() ==> #[trigger] named@[m] < t.size(),
            forall|a: int, b: int|
                0 <= a < b < named@.len() ==> #[trigger] t.node_at(named@[a] as int).start
                    <= #[trigger] t.node_at(named@[b] as int).start,
            low <= high <= count,
            forall|j: int| 0 <= j < low ==> #[trigger] t.node_at(named@[j] as int).start < start,
            forall|j: int| high <= j < count ==> #[trigger] t.node_at(named@[j] as int).start >= start,
        decreases high - low,
    {
        let middle = low + (high - low) / 2;
        let child = named[middle];
        if t.node(child).start < start {
            low = middle + 1;
        } else {
            high = middle;
        }
    }
    proof {
        lemma_first_at_least(*t, named@, start as int, 0, low as int);
    }
    let mut index = low;
    while index < count && index <= 4294967295
        invariant
            named@ == named_children_of(*t, parent as int),
            count == named@.len(),
            forall|m: int| 0 <= m < named@.len() ==> #[trigger] named@[m] < t.size(),
            low <= index,
            first_at_least(*t, named@, start as int, 0) == low,
            start == t.node_at(node as int).start,
            same_start_from(*t, named@, index as int, node, start as int) == same_start_from(
                *t,
                named@,
                low as int,
                node,
                start as int,
            ),
        decreases count - index,
    {
        let child = named[index];
        if t.node(child).start != start {
            return None;
        }
        if child == node {
            return Some(index);
        }
        index += 1;
    }
    None
}

/// The root of the tree that holds node `i`
pub open spec fn root_of(t: SyntaxTree, i: int) -> int
    decreases i,
{
    match t.parent_of(i) {
        Some(p) => if 0 <= p < i {
            root_of(t, p as int)
        } else {
            i
        },
        None => i,
    }
}

/// Returns the node at the root of the tree that holds `node`
pub fn root(t: &SyntaxTree, node: usize) -> (r: usize)
    requires
        t.valid(),
        node < t.size(),
    ensures
        r == root_of(*t, node as int),
        r < t.size(),
{
    let mut current = node;
    loop
        invariant
            t.valid(),
            current < t.size(),
            root_of(*t, current as int) == root_of(*t, node as int),
        decreases current,
    {
        match t.parent(current) {
            Some(p) => {
                current = p;
            },
            None => {
                return current;
            },
        }
    }
}

/// Returns the text of the whole file, and the offset it starts at
pub fn file_text<'a>(t: &'a SyntaxTree, node: usize) -> (r: (&'a str, usize))
    requires
        t.valid(),
        node < t.size(),
    ensures
        r.0@ == text_of(*t, root_of(*t, node as int)),
        r.1 == t.node_at(root_of(*t, node as int)).start,
{
    let top = root(t, node);
    (t.node(top).text.as_str(), t.node(top).start)
}

/// The character position of `t` where byte `b` of its UTF-8 encoding
/// begins, searching from position `k`; [`None`] when `b` falls inside a
/// character or past the end
pub open spec fn char_at_byte(t: Seq<char>, b: int, k: int) -> Option<int>
    decreases t.len() - k,
{
    if k < 0 || k > t.len() {
        None
    } else if utf8_size(t.subrange(0, k)) == b {
        Some(k)
    } else if k == t.len() || utf8_size(t.subrange(0, k)) > b {
        None
    } else {
        char_at_byte(t, b, k + 1)
    }
}

/// The number of newlines in `t`
pub open spec fn newlines(t: Seq<char>) -> nat
    decreases t.len(),
{
    if t.len() == 0 {
        0
    } else {
        newlines(t.drop_last()) + if t.last() == '\n' {
            1nat
        } else {
            0nat
        }
    }
}

/// Whether the comments at `e` and `l` sit on consecutive lines of `src`,
/// the file's text, which starts at byte `base`
pub open spec fn adjacent_spec(t: SyntaxTree, e: int, l: int, src: Seq<char>, base: int) -> bool {
    let st = t.node_at(e).end - base;
    let en = t.node_at(l).start - base;
    if st < 0 || en < 0 || st > en || en > utf8_size(src) {
        false
    } else {
        match (char_at_byte(src, st, 0), char_at_byte(src, en, 0)) {
            (Some(a), Some(c)) => {
                let gap = src.subrange(a, c);
                let swallowed: nat = if text_of(t, e).len() > 0 && text_of(t, e).last() == '\n' {
                    1
                } else {
                    0
                };
                a <= c && all_ws(gap) && newlines(gap) + swallowed == 1
            },
            _ => false,
        }
    }
}

fn char_index(s: &[char], b: usize) -> (r: Option<usize>)
    requires
        utf8_size(s@) <= usize::MAX,
    ensures
        match r {
            Some(k) => char_at_byte(s@, b as int, 0) == Some(k as int) && k <= s@.len(),
            None => char_at_byte(s@, b as int, 0) is None,
        },
{
    let mut k: usize = 0;
    let mut acc: usize = 0;
    assert(s@.subrange(0, 0) =~= Seq::<char>::empty());
    loop
        invariant
            k <= s@.len(),
            utf8_size(s@) <= usize::MAX,
            acc == utf8_size(s@.subrange(0, k as int)),
            char_at_byte(s@, b as int, k as int) == char_at_byte(s@, b as int, 0),
        decreases s@.len() - k,
    {
        if acc == b {
            return Some(k);
        }
        if k == s.len() || acc > b {
            return None;
        }
        proof {
            lemma_utf8_size_push(s@.subrange(0, k as int), s@[k as int]);
            assert(s@.subrange(0, k as int).push(s@[k as int]) =~= s@.subrange(0, k + 1));
            crate::text::lemma_utf8_size_mono(s@, 0, k + 1, s@.len() as int);
            assert(s@.subrange(0, s@.len() as int) =~= s@);
        }
        acc = acc + char_width(s[k]);
        k += 1;
    }
}

fn count_newlines(s: &[char], a: usize, c: usize) -> (r: usize)
    requires
        a <= c <= s@.len(),
    ensures
        r == newlines(s@.subrange(a as int, c as int)),
{
    let mut k = a;
    let mut n: usize = 0;
    while k < c
        invariant
            a <= k <= c <= s@.len(),
            n == newlines(s@.subrange(a as int, k as int)),
            n <= k - a,
        decreases c - k,
    {
        assert(s@.subrange(a as int, k + 1).drop_last() =~= s@.subrange(a as int, k as int));
        if s[k] == '\n' {
            n += 1;
        }
        k += 1;
    }
    n
}

/// Returns whether two comments sit on consecutive lines
///
/// The grammar keeps the trailing newline inside a doc comment node and
/// outside a plain one. A node that already swallowed its newline leaves a
/// shorter gap, so the count adds that newline back. A run ends at a blank
/// line, because a blank line also ends the Markdown block. A gap that does
/// not fall on character boundaries of `source` is no gap.
pub fn adjacent(t: &SyntaxTree, earlier: usize, later: usize, source: &str, base: usize) -> (r: bool)
    requires
        t.valid(),
        earlier < t.size(),
        later < t.size(),
    ensures
        r == adjacent_spec(*t, earlier as int, later as int, source@, base as int),
{
    let e_end = t.node(earlier).end;
    let l_start = t.node(later).start;
    if e_end < base || l_start < base {
        return false;
    }
    let start = e_end - base;
    let end = l_start - base;
    let s = crate::text::text_chars(source);
    let total = source.as_bytes().len();
    if start > end || end > total {
        return false;
    }
    let a = match char_index(s.as_slice(), start) {
        Some(a) => a,
        None => return false,
    };
    let c = match char_index(s.as_slice(), end) {
        Some(c) => c,
        None => return false,
    };
    if a > c {
        return false;
    }
    if !all_whitespace(s.as_slice(), a, c) {
        return false;
    }
    let text = chars_of(t.node(earlier).text.as_str());
    let swallowed: usize = if text.len() > 0 && text[text.len() - 1] == '\n' {
        1
    } else {
        0
    };
    let count = count_newlines(s.as_slice(), a, c);
    (swallowed == 1 && count == 0) || (swallowed == 0 && count == 1)
}

/// The lines of the `///` run that continues at named child `pos` of
/// `parent`, whose node is `cur`, in the file text `src` starting at `base`
pub open spec fn doc_run(
    t: SyntaxTree,
    parent: int,
    marker: DocMarker,
    src: Seq<char>,
    base: int,
    cur: int,
    pos: int,
) -> Seq<(Seq<char>, usize)>
    decreases named_children_of(t, parent).len() - pos,
{
    match doc_line_spec(t, cur) {
        None => Seq::empty(),
        Some(l) => seq![l] + match named_child_spec(t, parent, pos + 1) {
            None => Seq::empty(),
            Some(next) => if line_marker_spec(t, next as int) != Some(marker) || !adjacent_spec(
                t,
                cur,
                next as int,
                src,
                base,
            ) {
                Seq::empty()
            } else {
                doc_run(t, parent, marker, src, base, next as int, pos + 1)
            },
        },
    }
}

/// The Markdown lines of the `///` or `//!` run that starts at node `i`;
/// [`None`] when `i` is not such a line, or when an earlier line of the same
/// run already covers it
pub open spec fn line_run_spec(t: SyntaxTree, i: int) -> Option<Seq<(Seq<char>, usize)>> {
    match line_marker_spec(t, i) {
        None => None,
        Some(m) => match t.parent_of(i) {
            None => None,
            Some(p) => match sibling_spec(t, p as int, i) {
                None => None,
                Some(index) => {
                    let r = root_of(t, i);
                    let src = text_of(t, r);
                    let base = t.node_at(r).start as int;
                    let covered = index > 0 && match named_child_spec(t, p as int, index - 1) {
                        Some(prev) => line_marker_spec(t, prev as int) == Some(m) && adjacent_spec(
                            t,
                            prev as int,
                            i,
                            src,
                            base,
                        ),
                        None => false,
                    };
                    if covered {
                        None
                    } else {
                        Some(unindent_spec(doc_run(t, p as int, m, src, base, i, index as int)))
                    }
                },
            },
        },
    }
}

/// Returns the Markdown lines of the doc comment run starting at `node`
///
/// The grammar gives every `///` line its own node, so one code fence spans
/// several of them. The lint reads the whole run at once, and only the first
/// line of a run does the work.
pub fn line_comment_lines<'a>(t: &'a SyntaxTree, node: usize) -> (r: Option<Vec<DocLine<'a>>>)
    requires
        t.valid(),
        node < t.size(),
    ensures
        match r {
            Some(lines) => line_run_spec(*t, node as int) == Some(line_views(lines@)) && all_fit(
                line_views(lines@),
            ),
            None => line_run_spec(*t, node as int) is None,
        },
{
    let marker = match line_doc_marker(t, node) {
        Some(m) => m,
        None => return None,
    };
    let parent = match t.parent(node) {
        Some(p) => p,
        None => return None,
    };
    let index = match sibling_index(t, parent, node) {
        Some(i) => i,
        None => return None,
    };
    let (source, base) = file_text(t, node);
    let covered = if index == 0 {
        false
    } else {
        match named_child(t, parent, index - 1) {
            Some(previous) => {
                let same = match line_doc_marker(t, previous) {
                    Some(m) => m == marker,
                    None => false,
                };
                same && adjacent(t, previous, node, source, base)
            },
            None => false,
        }
    };
    if covered {
        return None;
    }
    let ghost named = named_children_of(*t, parent as int);
    proof {
        lemma_named_sorted(*t, parent as int);
        t.lemma_children(parent as int);
    }
    let mut lines: Vec<DocLine<'a>> = Vec::new();
    let mut current = node;
    let mut position = index;
    let ghost full = doc_run(*t, parent as int, marker, source@, base as int, node as int, index as int);
    loop
        invariant_except_break
            line_views(lines@) + doc_run(*t, parent as int, marker, source@, base as int, current as int, position as int) == full,
            position < named.len(),
        invariant
            t.valid(),
            parent < t.size(),
            current < t.size(),
            named == named_children_of(*t, parent as int),
            named.len() <= 4294967295,
            all_fit(line_views(lines@)),
        ensures
            line_views(lines@) == full,
        decreases named.len() - position,
    {
        let ghost before = line_views(lines@);
        match doc_line(t, current) {
            None => {
                assert(line_views(lines@) =~= full);
                break;
            },
            Some(line) => {
                lines.push(line);
                assert(line_views(lines@) =~= before.push(line_view(line)));
            },
        }
        let next = match named_child(t, parent, position + 1) {
            Some(n) => n,
            None => {
                assert(line_views(lines@) =~= full);
                break;
            },
        };
        let same = match line_doc_marker(t, next) {
            Some(m) => m == marker,
            None => false,
        };
        if !same || !adjacent(t, current, next, source, base) {
            assert(line_views(lines@) =~= full);
            break;
        }
        current = next;
        position += 1;
    }
    unindent(&mut lines);
    Some(lines)
}

} // verus!
