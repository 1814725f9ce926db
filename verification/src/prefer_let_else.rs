//! Flags `if let` expressions whose `else` branch diverges
//!
//! `let-else` makes the happy path obvious and reduces nesting. When the
//! `else` branch always diverges, the intent is an early exit on pattern
//! mismatch, which `let-else` expresses more directly.
//!
//! Whether a branch diverges is a question for the compiler's type check:
//! the branch's type is `!`. The rule therefore reads an expression as the
//! type check describes it, in the shape [`Expr`] holds.
use vstd::prelude::*;

use crate::diagnostic::{all_under, diag_view, diag_views, Diagnostic};

verus! {

/// Flags `if let` with a diverging `else` branch, which `let-else` can
/// express
pub struct PreferLetElse;

/// What the condition of an `if` is
#[derive(Clone, Copy, Debug, PartialEq, Eq, Structural)]
pub enum Condition {
    /// A `let` pattern match
    Let,
    /// Any other condition
    Other,
}

/// What the type check says of an `else` branch
#[derive(Clone, Copy, Debug, PartialEq, Eq, Structural)]
pub enum ElseType {
    /// The never type `!`: the branch diverges
    Never,
    /// Any other type
    Other,
}

/// An `if` expression as the rule reads it: its condition, the type of its
/// `else` branch when it has one, and the byte range it spans
#[derive(Clone, Copy, Debug, PartialEq, Eq, Structural)]
pub struct IfExpr {
    pub condition: Condition,
    pub else_type: Option<ElseType>,
    pub start: usize,
    pub end: usize,
}

/// An expression as the rule reads it
#[derive(Clone, Copy, Debug, PartialEq, Eq, Structural)]
pub enum Expr {
    /// An `if` expression
    If(IfExpr),
    /// Any other expression
    Other,
}

/// The message of the rule's warning
pub open spec fn let_else_message() -> Seq<char> {
    "`if let` with a diverging `else` can be rewritten as `let-else`"@
}

/// What the rule reports of the expression `e`: one warning spanning an
/// `if let` whose `else` branch has the never type, and nothing otherwise
pub open spec fn expr_findings(e: Expr) -> Seq<(Seq<char>, Seq<char>, usize, usize)> {
    match e {
        Expr::If(i) => if i.condition == Condition::Let && i.else_type == Some(ElseType::Never) {
            seq![("lint.prefer-let-else"@, let_else_message(), i.start, i.end)]
        } else {
            Seq::empty()
        },
        Expr::Other => Seq::empty(),
    }
}

impl PreferLetElse {
    /// The advice that goes with the warning
    pub fn help(&self) -> (r: &'static str)
        ensures
            r@ == "use `let ... else { <diverge> };` instead"@,
    {
        "use `let ... else { <diverge> };` instead"
    }

    /// Checks one expression: an `if let` whose `else` branch diverges gets
    /// a warning
    pub fn check_expr(&self, e: &Expr) -> (r: Vec<Diagnostic>)
        ensures
            all_under(diag_views(r@), "lint.prefer-let-else"@),
            diag_views(r@) == expr_findings(*e),
    {
        let mut out: Vec<Diagnostic> = Vec::new();
        assert(diag_views(out@) =~= Seq::empty());
        let i = match e {
            Expr::If(i) => i,
            Expr::Other => return out,
        };
        match i.condition {
            Condition::Let => {},
            Condition::Other => return out,
        }
        match i.else_type {
            Some(ElseType::Never) => {},
            _ => return out,
        }
        let d = Diagnostic::new(
            "lint.prefer-let-else",
            "`if let` with a diverging `else` can be rewritten as `let-else`".to_owned(),
            i.start,
            i.end,
        );
        out.push(d);
        assert(diag_views(out@) =~= seq![diag_view(d)]);
        out
    }
}

} // verus!
