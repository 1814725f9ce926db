//! Flags a doc comment that interrupts a sentence with a dash aside
//!
//! An em dash, a spaced en dash, or a spaced hyphen splices a second thought
//! into a sentence. A colon, a period, or a subordinate clause carries the
//! same meaning without the splice.
pub mod comments;
pub mod markdown;
pub mod masking;

use vstd::prelude::*;

use crate::diagnostic::{all_under, diag_view, diag_views, Diagnostic};
use crate::no_em_dash_aside::markdown::{
    all_fit, line_fits, line_view, line_views, prose_lines, prose_spec, slot_fits, slot_view,
    slot_views, DocLine,
};
use crate::no_em_dash_aside::masking::{
    aside_view, aside_views, dash_name, scan, scan_spec, Aside, AsideKind,
};
use crate::no_em_dash_aside::comments::{block_comment_lines, block_spec, line_comment_lines, line_run_spec};
use crate::syntax::SyntaxTree;
use crate::text::append;

verus! {

broadcast use vstd::seq_lib::group_seq_properties;

/// Flags a doc comment that interrupts a sentence with a dash aside
///
/// The lint reads prose only. Code spans, code blocks, quotations, headings,
/// tables, link definitions, and list markers are exempt.
pub struct NoEmDashAside;

/// The asides found so far in the slots `prose[..k]`, and the paragraph that
/// is still open
pub open spec fn asides_upto(prose: Seq<Option<(Seq<char>, usize)>>, k: int) -> (
    Seq<(AsideKind, usize, usize)>,
    Seq<(Seq<char>, usize)>,
)
    decreases k,
{
    if k <= 0 || k > prose.len() {
        (Seq::empty(), Seq::empty())
    } else {
        let st = asides_upto(prose, k - 1);
        match prose[k - 1] {
            Some(l) => (st.0, st.1.push(l)),
            None => (st.0 + scan_spec(st.1), Seq::empty()),
        }
    }
}

/// Every dash aside in a doc comment, paragraph by paragraph
pub open spec fn asides_spec(ls: Seq<(Seq<char>, usize)>) -> Seq<(AsideKind, usize, usize)> {
    let prose = prose_spec(ls);
    let st = asides_upto(prose, prose.len() as int);
    st.0 + scan_spec(st.1)
}

/// Returns every dash aside in a doc comment
///
/// The prose lines split into paragraphs where a line is not prose, because
/// a dash is only an aside when prose surrounds it.
pub fn find_asides(lines: &[DocLine]) -> (r: Vec<Aside>)
    requires
        all_fit(line_views(lines@)),
    ensures
        aside_views(r@) == asides_spec(line_views(lines@)),
        forall|k: int| 0 <= k < r@.len() ==> #[trigger] r@[k].offset + r@[k].length <= usize::MAX,
{
    let prose = prose_lines(lines);
    let ghost slots = slot_views(prose@);
    let mut asides: Vec<Aside> = Vec::new();
    let mut paragraph: Vec<DocLine> = Vec::new();
    let mut k: usize = 0;
    while k < prose.len()
        invariant
            slots == slot_views(prose@),
            forall|i: int| 0 <= i < prose@.len() ==> #[trigger] slot_fits(prose@[i]),
            k <= prose@.len(),
            aside_views(asides@) == asides_upto(slots, k as int).0,
            line_views(paragraph@) == asides_upto(slots, k as int).1,
            all_fit(line_views(paragraph@)),
            forall|m: int| 0 <= m < asides@.len() ==> #[trigger] asides@[m].offset + asides@[m].length <= usize::MAX,
        decreases prose@.len() - k,
    {
        assert(slot_fits(prose@[k as int]));
        match prose[k] {
            Some(line) => {
                assert(slots[k as int] == Some(line_view(line)));
                let ghost before = line_views(paragraph@);
                paragraph.push(line);
                assert(line_views(paragraph@) =~= before.push(line_view(line)));
            },
            None => {
                let ghost before = asides@;
                scan(paragraph.as_slice(), &mut asides);
                assert forall|m: int| 0 <= m < asides@.len() implies #[trigger] asides@[m].offset + asides@[m].length <= usize::MAX by {
                    if m < before.len() {
                        assert(asides@[m] == before[m]);
                    }
                }
                paragraph = Vec::new();
                assert(line_views(paragraph@) =~= Seq::<(Seq<char>, usize)>::empty());
            },
        }
        k += 1;
    }
    let ghost before = asides@;
    scan(paragraph.as_slice(), &mut asides);
    assert forall|m: int| 0 <= m < asides@.len() implies #[trigger] asides@[m].offset + asides@[m].length <= usize::MAX by {
        if m < before.len() {
            assert(asides@[m] == before[m]);
        }
    }
    asides
}

/// The advice for an aside
pub open spec fn aside_message(k: AsideKind) -> Seq<char> {
    dash_name(k) + " interrupts the sentence; use a colon, a period, or a subordinate clause"@
}

/// The diagnostics for a list of asides, one each, in order
pub open spec fn aside_reports(asides: Seq<(AsideKind, usize, usize)>) -> Seq<(Seq<char>, Seq<char>, usize, usize)> {
    asides.map_values(
        |a: (AsideKind, usize, usize)| ("lint.no-em-dash-aside"@, aside_message(a.0), a.1, (a.1 + a.2) as usize),
    )
}

/// Turns the asides found in one doc comment into diagnostics
pub fn diagnose(lines: &[DocLine]) -> (r: Vec<Diagnostic>)
    requires
        all_fit(line_views(lines@)),
    ensures
        diag_views(r@) == aside_reports(asides_spec(line_views(lines@))),
{
    let asides = find_asides(lines);
    let ghost found = aside_views(asides@);
    let mut out: Vec<Diagnostic> = Vec::new();
    let mut k: usize = 0;
    while k < asides.len()
        invariant
            found == aside_views(asides@),
            found == asides_spec(line_views(lines@)),
            forall|m: int| 0 <= m < asides@.len() ==> #[trigger] asides@[m].offset + asides@[m].length <= usize::MAX,
            k <= asides@.len(),
            diag_views(out@) == aside_reports(found.subrange(0, k as int)),
        decreases asides@.len() - k,
    {
        let a = asides[k];
        assert(found[k as int] == aside_view(a));
        assert(asides@[k as int].offset + asides@[k as int].length <= usize::MAX);
        let mut message = String::new();
        append(&mut message, a.kind.dash());
        append(&mut message, " interrupts the sentence; use a colon, a period, or a subordinate clause");
        let d = Diagnostic::new("lint.no-em-dash-aside", message, a.offset, a.offset + a.length);
        let ghost before = diag_views(out@);
        out.push(d);
        assert(diag_views(out@) =~= before.push(diag_view(d)));
        assert(found.subrange(0, k + 1) =~= found.subrange(0, k as int).push(found[k as int]));
        assert(aside_reports(found.subrange(0, k + 1)) =~= aside_reports(found.subrange(0, k as int)).push(diag_view(d)));
        k += 1;
    }
    assert(found.subrange(0, found.len() as int) =~= found);
    out
}

/// What the rule reports for a block comment at node `i`
pub open spec fn block_report(t: SyntaxTree, i: int) -> Seq<(Seq<char>, Seq<char>, usize, usize)> {
    match block_spec(t, i) {
        Some(ls) => aside_reports(asides_spec(ls)),
        None => Seq::empty(),
    }
}

/// What the rule reports for a line comment at node `i`
pub open spec fn line_report(t: SyntaxTree, i: int) -> Seq<(Seq<char>, Seq<char>, usize, usize)> {
    match line_run_spec(t, i) {
        Some(ls) => aside_reports(asides_spec(ls)),
        None => Seq::empty(),
    }
}

impl NoEmDashAside {
    /// Checks a block comment; `/* */` carries no documentation
    pub fn check_block_comment(&self, t: &SyntaxTree, node: usize) -> (r: Vec<Diagnostic>)
        requires
            t.valid(),
            node < t.size(),
        ensures
            all_under(diag_views(r@), "lint.no-em-dash-aside"@),
            diag_views(r@) == block_report(*t, node as int),
    {
        match block_comment_lines(t, node) {
            Some(lines) => diagnose(lines.as_slice()),
            None => Vec::new(),
        }
    }

    /// Checks the run of `///` or `//!` lines that a line comment starts
    pub fn check_line_comment(&self, t: &SyntaxTree, node: usize) -> (r: Vec<Diagnostic>)
        requires
            t.valid(),
            node < t.size(),
        ensures
            all_under(diag_views(r@), "lint.no-em-dash-aside"@),
            diag_views(r@) == line_report(*t, node as int),
    {
        match line_comment_lines(t, node) {
            Some(lines) => diagnose(lines.as_slice()),
            None => Vec::new(),
        }
    }
}

} // verus!
