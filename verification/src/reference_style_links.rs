//! Flags inline Markdown links in doc comments
//!
//! An inline link buries the URL in the prose and repeats it at every
//! mention. A reference-style link keeps the sentence readable and gives the
//! target one definition.
pub mod doc_block;
pub mod inline_link;

use vstd::prelude::*;

use crate::diagnostic::{all_under, diag_view, diag_views, Diagnostic};
use crate::no_em_dash_aside::markdown::unindent_spec;
use crate::no_em_dash_aside::masking::{joined_upto, locate_spec, starts_upto};
use crate::reference_style_links::doc_block::{from_comments, raw_lines};
use crate::reference_style_links::inline_link::{find_all_spec, kind_message, link_view, link_views, InlineLink, LinkKind};
use crate::syntax::{child_by_field_name, field_child, kind_is, kind_of, named_children, named_children_of, SyntaxTree};
use crate::text::utf8_size;

verus! {

broadcast use vstd::seq_lib::group_seq_properties;

/// Flags inline Markdown links in doc comments
///
/// The rule reads the link syntax only. It leaves `[text]`, `[text][]`, and
/// `[text][label]` alone, because those are the forms it asks for.
pub struct ReferenceStyleLinks;

/// Which marker introduces a doc comment line
///
/// A `///` run and a `//!` run never form one document, so the rule must not
/// join them.
#[derive(Copy, Clone, Eq, PartialEq, Debug, Structural)]
pub enum DocMarker {
    /// The `//!` marker
    Inner,
    /// The `///` marker
    Outer,
}

/// The marker of a doc comment line at node `i`, if it is one
pub open spec fn marker_of(t: SyntaxTree, i: int) -> Option<DocMarker> {
    if kind_of(t, i) != "line_comment"@ || field_child(t, i, "doc"@) is None {
        None
    } else if field_child(t, i, "inner"@) is Some {
        Some(DocMarker::Inner)
    } else if field_child(t, i, "outer"@) is Some {
        Some(DocMarker::Outer)
    } else {
        None
    }
}

impl DocMarker {
    /// Returns the marker of a doc comment line, if the node is one
    pub fn of(t: &SyntaxTree, node: usize) -> (r: Option<Self>)
        requires
            t.valid(),
            node < t.size(),
        ensures
            r == marker_of(*t, node as int),
    {
        if !kind_is(t, node, "line_comment") {
            return None;
        }
        if child_by_field_name(t, node, "doc").is_none() {
            return None;
        }
        if child_by_field_name(t, node, "inner").is_some() {
            return Some(DocMarker::Inner);
        }
        if child_by_field_name(t, node, "outer").is_some() {
            return Some(DocMarker::Outer);
        }
        None
    }
}

/// Whether the line at `c` carries on the doc comment the line at `p` started:
/// both use one marker, on adjacent rows
pub open spec fn continues_spec(t: SyntaxTree, p: int, c: int) -> bool {
    &&& marker_of(t, p) is Some
    &&& marker_of(t, c) == marker_of(t, p)
    &&& t.node_at(p).start_row + 1 == t.node_at(c).start_row
}

/// Returns whether `candidate` carries on the doc comment `previous` started
///
/// The comparison uses the start rows. A `line_comment` node covers the
/// newline that ends it, so its end row is already the row below.
pub fn continues(t: &SyntaxTree, previous: usize, candidate: usize) -> (r: bool)
    requires
        t.valid(),
        previous < t.size(),
        candidate < t.size(),
    ensures
        r == continues_spec(*t, previous as int, candidate as int),
{
    let a = match DocMarker::of(t, previous) {
        Some(m) => m,
        None => return false,
    };
    let b = match DocMarker::of(t, candidate) {
        Some(m) => m,
        None => return false,
    };
    if a != b {
        return false;
    }
    let row = t.node(candidate).start_row;
    row > 0 && t.node(previous).start_row == row - 1
}

/// The lines after the one at `last` that carry on its run, from sibling
/// `k` on
pub open spec fn run_from(t: SyntaxTree, sibs: Seq<usize>, k: int, last: int) -> Seq<usize>
    decreases sibs.len() - k,
{
    if k < 0 || k >= sibs.len() || !continues_spec(t, last, sibs[k] as int) {
        Seq::empty()
    } else {
        seq![sibs[k]] + run_from(t, sibs, k + 1, sibs[k] as int)
    }
}

/// The first position of `x` in `s` from `k` on
pub open spec fn index_from(s: Seq<usize>, x: usize, k: int) -> Option<int>
    decreases s.len() - k,
{
    if k < 0 || k >= s.len() {
        None
    } else if s[k] == x {
        Some(k)
    } else {
        index_from(s, x, k + 1)
    }
}

/// The run of doc comment lines that the line at `i` starts, if it starts one
pub open spec fn group_spec(t: SyntaxTree, i: int) -> Option<Seq<usize>> {
    if marker_of(t, i) is None {
        None
    } else {
        match t.parent_of(i) {
            None => None,
            Some(p) => {
                let sibs = named_children_of(t, p as int);
                match index_from(sibs, i as usize, 0) {
                    None => None,
                    Some(index) => if index > 0 && continues_spec(t, sibs[index - 1] as int, i) {
                        None
                    } else {
                        Some(seq![i as usize] + run_from(t, sibs, index + 1, i))
                    },
                }
            },
        }
    }
}

proof fn lemma_run_marker(t: SyntaxTree, sibs: Seq<usize>, k: int, last: int)
    ensures
        forall|j: int|
            0 <= j < run_from(t, sibs, k, last).len() ==> marker_of(t, #[trigger] run_from(t, sibs, k, last)[j] as int)
                == marker_of(t, last),
    decreases sibs.len() - k,
{
    if !(k < 0 || k >= sibs.len() || !continues_spec(t, last, sibs[k] as int)) {
        lemma_run_marker(t, sibs, k + 1, sibs[k] as int);
        let rest = run_from(t, sibs, k + 1, sibs[k] as int);
        assert forall|j: int| 0 <= j < run_from(t, sibs, k, last).len() implies marker_of(
            t,
            #[trigger] run_from(t, sibs, k, last)[j] as int,
        ) == marker_of(t, last) by {
            if j > 0 {
                assert(run_from(t, sibs, k, last)[j] == rest[j - 1]);
            }
        }
    }
}

/// Every line of a run carries the marker of the line that starts it, so a
/// `///` run and a `//!` run never form one document
pub proof fn law_run_shares_marker(t: SyntaxTree, i: usize)
    ensures
        match group_spec(t, i as int) {
            Some(g) => forall|k: int| 0 <= k < g.len() ==> marker_of(t, #[trigger] g[k] as int) == marker_of(t, i as int),
            None => true,
        },
{
    match group_spec(t, i as int) {
        Some(g) => {
            let p = t.parent_of(i as int).unwrap();
            let sibs = named_children_of(t, p as int);
            let index = index_from(sibs, i, 0).unwrap();
            lemma_run_marker(t, sibs, index + 1, i as int);
            let rest = run_from(t, sibs, index + 1, i as int);
            assert forall|k: int| 0 <= k < g.len() implies marker_of(t, #[trigger] g[k] as int) == marker_of(t, i as int) by {
                if k > 0 {
                    assert(g[k] == rest[k - 1]);
                } else {
                    assert(g[0] == i);
                }
            }
        },
        None => {},
    }
}

/// Returns the run of doc comment lines that `node` starts
///
/// Returns [`None`] when `node` is not a doc comment, or when the line above
/// it belongs to the same run. The walker visits every line of a run, so
/// only the first line may report; otherwise one link would produce a
/// diagnostic on every line of its doc comment.
pub fn doc_comment_group(t: &SyntaxTree, node: usize) -> (r: Option<Vec<usize>>)
    requires
        t.valid(),
        node < t.size(),
    ensures
        match r {
            Some(g) => group_spec(*t, node as int) == Some(g@) && forall|k: int|
                0 <= k < g@.len() ==> #[trigger] g@[k] < t.size(),
            None => group_spec(*t, node as int) is None,
        },
{
    if DocMarker::of(t, node).is_none() {
        return None;
    }
    let parent = match t.parent(node) {
        Some(p) => p,
        None => return None,
    };
    let siblings = named_children(t, parent);
    let mut index: usize = 0;
    while index < siblings.len() && siblings[index] != node
        invariant
            t.valid(),
            node < t.size(),
            t.parent_of(node as int) == Some(parent),
            marker_of(*t, node as int) is Some,
            siblings@ == named_children_of(*t, parent as int),
            index <= siblings@.len(),
            index_from(siblings@, node, index as int) == index_from(siblings@, node, 0),
        decreases siblings@.len() - index,
    {
        index += 1;
    }
    if index == siblings.len() {
        return None;
    }
    if index > 0 && continues(t, siblings[index - 1], node) {
        return None;
    }
    let mut group: Vec<usize> = Vec::new();
    group.push(node);
    let mut last = node;
    let mut k = index + 1;
    let ghost start = index + 1;
    while k < siblings.len()
        invariant_except_break
            group@ + run_from(*t, siblings@, k as int, last as int) == seq![node] + run_from(
                *t,
                siblings@,
                start,
                node as int,
            ),
        invariant
            t.valid(),
            node < t.size(),
            last < t.size(),
            t.parent_of(node as int) == Some(parent),
            marker_of(*t, node as int) is Some,
            index_from(siblings@, node, 0) == Some(start - 1),
            !(start - 1 > 0 && continues_spec(*t, siblings@[start - 2] as int, node as int)),
            siblings@ == named_children_of(*t, parent as int),
            forall|m: int| 0 <= m < siblings@.len() ==> #[trigger] siblings@[m] < t.size(),
            forall|m: int| 0 <= m < group@.len() ==> #[trigger] group@[m] < t.size(),
            start <= k <= siblings@.len(),
        ensures
            group@ == seq![node] + run_from(*t, siblings@, start, node as int),
        decreases siblings@.len() - k,
    {
        let candidate = siblings[k];
        if !continues(t, last, candidate) {
            break;
        }
        let ghost before = group@;
        group.push(candidate);
        assert(group@ =~= before.push(candidate));
        last = candidate;
        k += 1;
    }
    Some(group)
}

/// What the rule reports for the doc comment that the nodes `cs` form
pub open spec fn check_spec(t: SyntaxTree, cs: Seq<usize>) -> Seq<(Seq<char>, Seq<char>, usize, usize)> {
    let raw = raw_lines(t, cs, cs.len() as int);
    if raw.len() == 0 {
        Seq::empty()
    } else {
        let ls = unindent_spec(raw);
        let n = ls.len() as int;
        let starts = starts_upto(ls, n);
        find_all_spec(joined_upto(ls, n)).map_values(
            |l: (LinkKind, int, int)|
                (
                    "lint.reference-style-links"@,
                    kind_message(l.0),
                    locate_spec(ls, starts, l.1) as usize,
                    locate_spec(ls, starts, l.2) as usize,
                ),
        )
    }
}

/// Reports every inline link in one doc comment
pub fn check(t: &SyntaxTree, comments: &[usize]) -> (r: Vec<Diagnostic>)
    requires
        t.valid(),
        forall|k: int| 0 <= k < comments@.len() ==> #[trigger] comments@[k] < t.size(),
    ensures
        diag_views(r@) == check_spec(*t, comments@),
{
    let block = match from_comments(t, comments) {
        Some(b) => b,
        None => return Vec::new(),
    };
    let links = InlineLink::find_all(block.content());
    let ghost found = link_views(links@);
    let ghost ls = block.parts();
    proof {
        block.lemma_file_offset(0);
    }
    let mut out: Vec<Diagnostic> = Vec::new();
    let mut k: usize = 0;
    while k < links.len()
        invariant
            block.valid(),
            ls == block.parts(),
            found == link_views(links@),
            found == find_all_spec(block.text()),
            block.text() == joined_upto(ls, ls.len() as int),
            ls == unindent_spec(raw_lines(*t, comments@, comments@.len() as int)),
            raw_lines(*t, comments@, comments@.len() as int).len() > 0,
            forall|m: int|
                0 <= m < links@.len() ==> #[trigger] links@[m].spec_start() < links@[m].spec_end() <= utf8_size(block.text()),
            k <= links@.len(),
            diag_views(out@) == check_spec(*t, comments@).subrange(0, k as int),
        decreases links@.len() - k,
    {
        let link = links[k];
        assert(found[k as int] == link_view(link));
        let (start, end) = block.span(link.start(), link.end());
        proof {
            block.lemma_file_offset(link.spec_start() as int);
            block.lemma_file_offset(link.spec_end() as int);
        }
        let message = link.kind().message();
        let d = Diagnostic::new("lint.reference-style-links", message.to_owned(), start, end);
        let ghost before = diag_views(out@);
        out.push(d);
        assert(diag_views(out@) =~= before.push(diag_view(d)));
        assert(check_spec(*t, comments@).subrange(0, k + 1) =~= check_spec(*t, comments@).subrange(0, k as int).push(diag_view(d)));
        k += 1;
    }
    assert(check_spec(*t, comments@).subrange(0, k as int) =~= check_spec(*t, comments@));
    out
}

impl ReferenceStyleLinks {
    /// Checks a block comment on its own
    pub fn check_block_comment(&self, t: &SyntaxTree, node: usize) -> (r: Vec<Diagnostic>)
        requires
            t.valid(),
            node < t.size(),
        ensures
            all_under(diag_views(r@), "lint.reference-style-links"@),
            diag_views(r@) == check_spec(*t, seq![node]),
    {
        let nodes = [node];
        assert(nodes@ =~= seq![node]);
        check(t, &nodes)
    }

    /// Checks the run of doc comment lines that a line comment starts
    pub fn check_line_comment(&self, t: &SyntaxTree, node: usize) -> (r: Vec<Diagnostic>)
        requires
            t.valid(),
            node < t.size(),
        ensures
            all_under(diag_views(r@), "lint.reference-style-links"@),
            diag_views(r@) == match group_spec(*t, node as int) {
                Some(g) => check_spec(*t, g),
                None => Seq::empty(),
            },
    {
        match doc_comment_group(t, node) {
            Some(group) => check(t, group.as_slice()),
            None => Vec::new(),
        }
    }
}

} // verus!
