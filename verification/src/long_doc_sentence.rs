//! Flags a doc comment sentence longer than 25 words
//!
//! ASD-STE100 caps a descriptive sentence at 25 words, past which a reader
//! has to hold too much at once. The rule reads the comment text, never the
//! item it documents. It skips what rustdoc does not render as prose: fenced
//! code blocks, section headings, link definitions, and table rows.
pub mod doc_line;
pub mod sentence;

use vstd::prelude::*;

use crate::diagnostic::{all_under, diag_view, diag_views, Diagnostic};
use crate::long_doc_sentence::doc_line::DocLine;
use crate::long_doc_sentence::sentence::{
    doc_line_views, lemma_sentences_of, sentences_of_lines, sentences_spec, try_sentences, Sentence,
};
use crate::no_em_dash_aside::markdown::line_views;
use crate::reference_style_links::doc_block::{comment_lines_of, raw_lines};
use crate::syntax::{
    child_by_field_name, field_child, first_position, kind_is, kind_of, named_children,
    named_children_of, position_of, SyntaxTree,
};
use crate::text::{append, decimal, push_decimal};

verus! {

broadcast use vstd::seq_lib::group_seq_properties;

/// The most words one doc comment sentence may have
pub const MAX_WORDS: usize = 25;

/// Flags doc comment sentences over the word cap
pub struct LongDocSentence;

/// The marker that opens a doc comment
///
/// A `///` run and a `//!` run document different items, so the rule reads
/// them as separate comments even when they touch.
#[derive(Clone, Copy, Debug, PartialEq, Eq, Structural)]
pub enum Marker {
    Inner,
    Outer,
}

/// The marker of comment `n`, or [`None`] when it carries no doc text
pub open spec fn marker_spec(t: SyntaxTree, n: int) -> Option<Marker> {
    if field_child(t, n, "doc"@) is None {
        None
    } else if field_child(t, n, "inner"@) is Some {
        Some(Marker::Inner)
    } else if field_child(t, n, "outer"@) is Some {
        Some(Marker::Outer)
    } else {
        None
    }
}

/// The named sibling just before node `n`
pub open spec fn prev_named(t: SyntaxTree, n: int) -> Option<usize> {
    match t.parent_of(n) {
        None => None,
        Some(p) => {
            let sibs = named_children_of(t, p as int);
            match first_position(sibs, n as usize, 0) {
                Some(ix) => if ix > 0 {
                    Some(sibs[ix - 1])
                } else {
                    None
                },
                None => None,
            }
        },
    }
}

/// Whether line comment `n` continues a doc comment with the marker `m`
/// that started on the row above
pub open spec fn continues_spec(t: SyntaxTree, n: int, m: Marker) -> bool {
    match prev_named(t, n) {
        None => false,
        Some(q) => kind_of(t, q as int) == "line_comment"@ && t.node_at(q as int).start_row + 1
            == t.node_at(n).start_row && marker_spec(t, q as int) == Some(m),
    }
}

/// The line comments from `sibs[k]` on that carry the marker `m` on
/// consecutive rows from `row`
pub open spec fn line_run(t: SyntaxTree, sibs: Seq<usize>, k: int, row: int, m: Marker) -> Seq<usize>
    decreases sibs.len() - k,
{
    if k < 0 || k >= sibs.len() {
        Seq::empty()
    } else {
        let s = sibs[k] as int;
        if kind_of(t, s) != "line_comment"@ || marker_spec(t, s) != Some(m) || t.node_at(s).start_row
            != row {
            Seq::empty()
        } else {
            seq![sibs[k]] + line_run(t, sibs, k + 1, row + 1, m)
        }
    }
}

/// What the rule says of a sentence of `words` words
pub open spec fn long_message(words: nat) -> Seq<char> {
    "doc sentence is "@ + decimal(words) + " words, over the 25-word limit"@
}

/// The findings for the sentences among `ss[..k]` over the word cap
pub open spec fn long_findings(ss: Seq<Sentence>, k: int) -> Seq<(Seq<char>, Seq<char>, usize, usize)>
    decreases k,
{
    if k <= 0 || k > ss.len() {
        Seq::empty()
    } else {
        let rest = long_findings(ss, k - 1);
        let s = ss[k - 1];
        if s.spec_words() > MAX_WORDS {
            rest.push(
                (
                    "lint.long-doc-sentence"@,
                    long_message(s.spec_words() as nat),
                    s.spec_start(),
                    s.spec_end(),
                ),
            )
        } else {
            rest
        }
    }
}

/// What the rule reports of a doc comment made of the lines `ls`: nothing
/// where splitting them into sentences has no answer
pub open spec fn report_spec(ls: Seq<(Seq<char>, usize)>) -> Seq<(Seq<char>, Seq<char>, usize, usize)> {
    match sentences_of_lines(ls) {
        None => Seq::empty(),
        Some(ss) => long_findings(ss, ss.len() as int),
    }
}

/// What the rule reports of the block comment `n`
pub open spec fn block_findings(t: SyntaxTree, n: int) -> Seq<(Seq<char>, Seq<char>, usize, usize)> {
    if marker_spec(t, n) is None {
        Seq::empty()
    } else {
        report_spec(raw_lines(t, seq![n as usize], 1))
    }
}

/// What the rule reports of the line comment `n`: the run of doc lines it
/// opens, read as one comment
pub open spec fn line_findings(t: SyntaxTree, n: int) -> Seq<(Seq<char>, Seq<char>, usize, usize)> {
    match marker_spec(t, n) {
        None => Seq::empty(),
        Some(m) => if continues_spec(t, n, m) {
            Seq::empty()
        } else {
            match t.parent_of(n) {
                None => Seq::empty(),
                Some(p) => {
                    let sibs = named_children_of(t, p as int);
                    match first_position(sibs, n as usize, 0) {
                        None => Seq::empty(),
                        Some(ix) => {
                            let run = line_run(t, sibs, ix, t.node_at(n).start_row as int, m);
                            report_spec(raw_lines(t, run, run.len() as int))
                        },
                    }
                },
            }
        },
    }
}

/// Returns the marker of a comment, or [`None`] when it carries no doc text
pub fn doc_marker(t: &SyntaxTree, n: usize) -> (r: Option<Marker>)
    requires
        t.valid(),
        n < t.size(),
    ensures
        r == marker_spec(*t, n as int),
{
    if child_by_field_name(t, n, "doc").is_none() {
        return None;
    }
    if child_by_field_name(t, n, "inner").is_some() {
        Some(Marker::Inner)
    } else if child_by_field_name(t, n, "outer").is_some() {
        Some(Marker::Outer)
    } else {
        None
    }
}

/// Returns whether the line continues a doc comment that started above it
///
/// Rustdoc joins a run of `///` lines into one comment. A sentence may cross
/// the line breaks, so only the first line of the run reports.
pub fn continues_block(t: &SyntaxTree, n: usize, marker: Marker) -> (r: bool)
    requires
        t.valid(),
        n < t.size(),
    ensures
        r == continues_spec(*t, n as int, marker),
{
    let p = match t.parent(n) {
        Some(p) => p,
        None => return false,
    };
    let sibs = named_children(t, p);
    let ix = match position_of(sibs.as_slice(), n) {
        Some(i) => i,
        None => return false,
    };
    if ix == 0 {
        return false;
    }
    let q = sibs[ix - 1];
    if !kind_is(t, q, "line_comment") {
        return false;
    }
    let a = t.node(q).start_row;
    let b = t.node(n).start_row;
    if !(a < b && a + 1 == b) {
        return false;
    }
    doc_marker(t, q) == Some(marker)
}

/// Reports every sentence of the doc comment made of `comments` that goes
/// over the word cap
fn report(t: &SyntaxTree, comments: &[usize]) -> (r: Vec<Diagnostic>)
    requires
        t.valid(),
        forall|k: int| 0 <= k < comments@.len() ==> #[trigger] comments@[k] < t.size(),
    ensures
        all_under(diag_views(r@), "lint.long-doc-sentence"@),
        diag_views(r@) == report_spec(raw_lines(*t, comments@, comments@.len() as int)),
{
    let raw = comment_lines_of(t, comments);
    let mut lines: Vec<DocLine> = Vec::new();
    let mut k: usize = 0;
    while k < raw.len()
        invariant
            k <= raw@.len(),
            doc_line_views(lines@) == line_views(raw@).subrange(0, k as int),
        decreases raw@.len() - k,
    {
        let l = DocLine::new(raw[k].text, raw[k].offset);
        assert((l.spec_text(), l.spec_offset()) == line_views(raw@)[k as int]);
        let ghost before = lines@;
        lines.push(l);
        assert(doc_line_views(lines@) =~= doc_line_views(before).push((l.spec_text(), l.spec_offset())));
        k += 1;
        assert(doc_line_views(lines@) =~= line_views(raw@).subrange(0, k as int));
    }
    assert(line_views(raw@).subrange(0, k as int) =~= line_views(raw@));
    proof {
        lemma_sentences_of(lines@);
    }
    let mut out: Vec<Diagnostic> = Vec::new();
    let found = match try_sentences(lines.as_slice()) {
        Some(v) => v,
        None => {
            assert(diag_views(out@) =~= Seq::empty());
            return out;
        },
    };
    assert(diag_views(out@) =~= long_findings(found@, 0));
    let mut m: usize = 0;
    while m < found.len()
        invariant
            m <= found@.len(),
            diag_views(out@) == long_findings(found@, m as int),
            all_under(diag_views(out@), "lint.long-doc-sentence"@),
        decreases found@.len() - m,
    {
        let s = &found[m];
        let words = s.words();
        if words > MAX_WORDS {
            let mut message = String::new();
            append(&mut message, "doc sentence is ");
            push_decimal(&mut message, words);
            append(&mut message, " words, over the 25-word limit");
            let d = Diagnostic::new("lint.long-doc-sentence", message, s.start(), s.end());
            let ghost before = diag_views(out@);
            out.push(d);
            assert(diag_views(out@) =~= before.push(diag_view(d)));
            assert(diag_views(out@)[diag_views(out@).len() - 1] == diag_view(d));
        }
        m += 1;
    }
    out
}

impl LongDocSentence {
    /// Checks a `/** */` or `/*! */` comment
    pub fn check_block_comment(&self, t: &SyntaxTree, node: usize) -> (r: Vec<Diagnostic>)
        requires
            t.valid(),
            node < t.size(),
        ensures
            all_under(diag_views(r@), "lint.long-doc-sentence"@),
            diag_views(r@) == block_findings(*t, node as int),
    {
        if doc_marker(t, node).is_none() {
            let out: Vec<Diagnostic> = Vec::new();
            assert(diag_views(out@) =~= Seq::empty());
            return out;
        }
        let mut one: Vec<usize> = Vec::new();
        one.push(node);
        assert(one@ =~= seq![node]);
        report(t, one.as_slice())
    }

    /// Checks a `///` or `//!` comment: the first line of a run reports the
    /// sentences of the whole run
    pub fn check_line_comment(&self, t: &SyntaxTree, node: usize) -> (r: Vec<Diagnostic>)
        requires
            t.valid(),
            node < t.size(),
        ensures
            all_under(diag_views(r@), "lint.long-doc-sentence"@),
            diag_views(r@) == line_findings(*t, node as int),
    {
        let empty: Vec<Diagnostic> = Vec::new();
        assert(diag_views(empty@) =~= Seq::empty());
        let marker = match doc_marker(t, node) {
            Some(m) => m,
            None => return empty,
        };
        if continues_block(t, node, marker) {
            return empty;
        }
        let p = match t.parent(node) {
            Some(p) => p,
            None => return empty,
        };
        let sibs = named_children(t, p);
        let index = match position_of(sibs.as_slice(), node) {
            Some(i) => i,
            None => return empty,
        };
        let mut run: Vec<usize> = Vec::new();
        let mut row = t.node(node).start_row;
        let mut k = index;
        let ghost start_row = row as int;
        loop
            invariant_except_break
                run@ + line_run(*t, sibs@, k as int, row as int, marker) == line_run(
                    *t,
                    sibs@,
                    index as int,
                    start_row,
                    marker,
                ),
            invariant
                t.valid(),
                sibs@ == named_children_of(*t, p as int),
                forall|j: int| 0 <= j < sibs@.len() ==> #[trigger] sibs@[j] < t.size(),
                forall|j: int| 0 <= j < run@.len() ==> #[trigger] run@[j] < t.size(),
                index <= k <= sibs@.len(),
                row == start_row + (k - index),
            ensures
                run@ == line_run(*t, sibs@, index as int, start_row, marker),
            decreases sibs@.len() - k,
        {
            if k >= sibs.len() {
                assert(run@ + Seq::<usize>::empty() =~= run@);
                break;
            }
            let s = sibs[k];
            if !kind_is(t, s, "line_comment") || doc_marker(t, s) != Some(marker) || t.node(s).start_row
                != row {
                assert(run@ + Seq::<usize>::empty() =~= run@);
                break;
            }
            let ghost before = run@;
            run.push(s);
            assert(before + line_run(*t, sibs@, k as int, row as int, marker) =~= run@ + line_run(
                *t,
                sibs@,
                k + 1,
                row + 1,
                marker,
            ));
            if row == usize::MAX {
                assert(line_run(*t, sibs@, k + 1, row + 1, marker) =~= Seq::<usize>::empty());
                assert(run@ + Seq::<usize>::empty() =~= run@);
                break;
            }
            row += 1;
            k += 1;
        }
        report(t, run.as_slice())
    }
}

} // verus!
