//! Flags wildcard (`_`) patterns in match arms when the scrutinee is an enum
//!
//! Wildcard arms hide missing cases when new variants are added to an enum.
//! Explicit matching forces each variant to be handled deliberately. The
//! rule allows wildcards on non-enum types and on `#[non_exhaustive]` enums
//! of other crates, where a wildcard is required.
use vstd::prelude::*;

use crate::decorations::Decorations;
use crate::diagnostic::{all_under, diag_view, diag_views, Diagnostic};
use crate::syntax::{
    child_by_field_name, field_child, kind_is, kind_of, named_children, named_children_of, text_of,
    SyntaxTree,
};
use crate::text::text_is;

verus! {

/// Flags wildcard match arms on enum scrutinees
pub struct WildcardMatchArm;

/// Whether the match pattern `m` has an anonymous child `_`
pub open spec fn is_wildcard(t: SyntaxTree, m: int) -> bool {
    exists|k: int|
        0 <= k < t.children_of(m).len() && !t.node_at(#[trigger] t.children_of(m)[k] as int).named
            && text_of(t, t.children_of(m)[k] as int) == "_"@
}

/// Returns whether a match pattern node represents a wildcard `_`
///
/// Tree-sitter emits the `_` token as an anonymous child of the pattern, so
/// all children are inspected, named or not.
pub fn is_wildcard_pattern(t: &SyntaxTree, m: usize) -> (r: bool)
    requires
        t.valid(),
        m < t.size(),
    ensures
        r == is_wildcard(*t, m as int),
{
    let kids = t.children(m);
    let mut k: usize = 0;
    while k < kids.len()
        invariant
            t.valid(),
            m < t.size(),
            kids@ == t.children_of(m as int),
            forall|j: int| 0 <= j < kids@.len() ==> m < #[trigger] kids@[j] < t.size(),
            k <= kids@.len(),
            forall|j: int|
                0 <= j < k ==> !(!t.node_at(#[trigger] kids@[j] as int).named && text_of(*t, kids@[j] as int) == "_"@),
        decreases kids@.len() - k,
    {
        let child = t.node(kids[k]);
        if !child.named && text_is(child.text.as_str(), "_") {
            return true;
        }
        k += 1;
    }
    false
}

/// The rule's finding for a wildcard pattern spanning `start..end`
pub open spec fn wildcard_finding(start: usize, end: usize) -> (Seq<char>, Seq<char>, usize, usize) {
    ("lint.wildcard-match-arm"@, "wildcard match arm hides unhandled variants"@, start, end)
}

/// The findings for the wildcard patterns among `arms[..k]`
pub open spec fn arm_findings(t: SyntaxTree, arms: Seq<usize>, k: int) -> Seq<
    (Seq<char>, Seq<char>, usize, usize),
>
    decreases k,
{
    if k <= 0 || k > arms.len() {
        Seq::empty()
    } else {
        let a = arms[k - 1] as int;
        let rest = arm_findings(t, arms, k - 1);
        if kind_of(t, a) != "match_arm"@ {
            rest
        } else {
            match field_child(t, a, "pattern"@) {
                Some(p) => if is_wildcard(t, p as int) {
                    rest.push(wildcard_finding(t.node_at(p as int).start, t.node_at(p as int).end))
                } else {
                    rest
                },
                None => rest,
            }
        }
    }
}

/// What the rule reports of the `match_expression` node `node`
pub open spec fn match_findings(t: SyntaxTree, d: Decorations, node: int) -> Seq<
    (Seq<char>, Seq<char>, usize, usize),
> {
    match field_child(t, node, "value"@) {
        None => Seq::empty(),
        Some(s) => match d.resolved_of(s) {
            None => Seq::empty(),
            Some(ty) => if !ty.is_enum || d.external_of(s) == Some(true) {
                Seq::empty()
            } else {
                match field_child(t, node, "body"@) {
                    None => Seq::empty(),
                    Some(b) => arm_findings(
                        t,
                        named_children_of(t, b as int),
                        named_children_of(t, b as int).len() as int,
                    ),
                }
            },
        },
    }
}

impl WildcardMatchArm {
    /// Checks one `match_expression`: each arm whose pattern is `_` gets a
    /// warning, when the scrutinee's type is an enum that is not
    /// `#[non_exhaustive]` in another crate
    pub fn check_match_expression(&self, t: &SyntaxTree, d: &Decorations, node: usize) -> (r: Vec<
        Diagnostic,
    >)
        requires
            t.valid(),
            node < t.size(),
        ensures
            all_under(diag_views(r@), "lint.wildcard-match-arm"@),
            match field_child(*t, node as int, "value"@) {
                Some(s) => d.resolved_of(s) is None ==> r@.len() == 0,
                None => r@.len() == 0,
            },
            diag_views(r@) == match_findings(*t, *d, node as int),
    {
        let mut out: Vec<Diagnostic> = Vec::new();
        assert(diag_views(out@) =~= Seq::empty());
        let scrutinee = match child_by_field_name(t, node, "value") {
            Some(s) => s,
            None => return out,
        };
        let resolved = match d.resolved_type(scrutinee) {
            Some(ty) => ty,
            None => return out,
        };
        if !resolved.is_enum {
            return out;
        }
        match d.non_exhaustive_external(scrutinee) {
            Some(true) => return out,
            _ => {},
        }
        let body = match child_by_field_name(t, node, "body") {
            Some(b) => b,
            None => return out,
        };
        let arms = named_children(t, body);
        let mut k: usize = 0;
        while k < arms.len()
            invariant
                t.valid(),
                body < t.size(),
                arms@ == named_children_of(*t, body as int),
                forall|j: int| 0 <= j < arms@.len() ==> #[trigger] arms@[j] < t.size(),
                k <= arms@.len(),
                diag_views(out@) == arm_findings(*t, arms@, k as int),
                all_under(diag_views(out@), "lint.wildcard-match-arm"@),
            decreases arms@.len() - k,
        {
            let arm = arms[k];
            if kind_is(t, arm, "match_arm") {
                match child_by_field_name(t, arm, "pattern") {
                    Some(p) => {
                        if is_wildcard_pattern(t, p) {
                            let n = t.node(p);
                            let d = Diagnostic::new(
                                "lint.wildcard-match-arm",
                                "wildcard match arm hides unhandled variants".to_owned(),
                                n.start,
                                n.end,
                            );
                            let ghost before = out@;
                            out.push(d);
                            assert(diag_views(out@) =~= diag_views(before).push(diag_view(d)));
                            assert(diag_views(out@)[diag_views(out@).len() - 1] == diag_view(d));
                        }
                    },
                    None => {},
                }
            }
            k += 1;
        }
        out
    }
}

} // verus!
