//! Flags uses of the `matches!` macro
//!
//! The `matches!` macro hides the full match expression, making it easy to
//! miss unhandled variants when an enum gains new members. A full `match`
//! expression forces each variant to be considered deliberately.
use vstd::prelude::*;

use crate::diagnostic::{all_under, diag_view, diag_views, Diagnostic};
use crate::syntax::{child_by_field_name, field_child, kind_is, kind_of, text_of, SyntaxTree};
use crate::text::text_is;

verus! {

/// Flags `matches!` invocations
pub struct NoMatchesMacro;

/// What the rule reports of the `macro_invocation` node `node`: a warning
/// spanning the invocation when the macro is the plain identifier `matches`
pub open spec fn macro_findings(t: SyntaxTree, node: int) -> Seq<(Seq<char>, Seq<char>, usize, usize)> {
    match field_child(t, node, "macro"@) {
        Some(m) => if kind_of(t, m as int) == "identifier"@ && text_of(t, m as int) == "matches"@ {
            seq![
                (
                    "lint.no-matches-macro"@,
                    "use a full `match` expression instead of `matches!`"@,
                    t.node_at(node).start,
                    t.node_at(node).end,
                ),
            ]
        } else {
            Seq::empty()
        },
        None => Seq::empty(),
    }
}

impl NoMatchesMacro {
    /// Checks one `macro_invocation`: a call of `matches!` gets a warning
    pub fn check_macro_invocation(&self, t: &SyntaxTree, node: usize) -> (r: Vec<Diagnostic>)
        requires
            t.valid(),
            node < t.size(),
        ensures
            all_under(diag_views(r@), "lint.no-matches-macro"@),
            diag_views(r@) == macro_findings(*t, node as int),
    {
        let mut out: Vec<Diagnostic> = Vec::new();
        assert(diag_views(out@) =~= Seq::empty());
        let m = match child_by_field_name(t, node, "macro") {
            Some(m) => m,
            None => return out,
        };
        if !kind_is(t, m, "identifier") || !text_is(t.node(m).text.as_str(), "matches") {
            return out;
        }
        let n = t.node(node);
        let d = Diagnostic::new(
            "lint.no-matches-macro",
            "use a full `match` expression instead of `matches!`".to_owned(),
            n.start,
            n.end,
        );
        out.push(d);
        assert(diag_views(out@) =~= seq![diag_view(d)]);
        out
    }
}

} // verus!
