//! Flags `if let` expressions that have a non-diverging `else` branch
//!
//! An `if let` with an `else` branch is equivalent to a two-arm `match` but
//! obscures the pattern-matching intent. A `match` expression makes both
//! arms equally visible and encourages exhaustive handling. `if let` without
//! an `else` is acceptable for short, single-branch pattern actions, and so
//! is one whose `else` diverges (return, panic, and the like), since that
//! pattern maps to `let ... else`.
use vstd::prelude::*;

use crate::diagnostic::{all_under, diag_view, diag_views, Diagnostic};
use crate::syntax::{
    child_by_field_name, field_child, kind_is, kind_of, named_child, named_child_spec,
    named_children, named_children_of, text_of, SyntaxTree,
};
use crate::text::text_is;

verus! {

/// Flags `if let` with a non-diverging `else`
pub struct IfLetWithElse;

/// Whether node `i`, or a node below it reached through named children, is
/// a `let` condition or a `let` chain
pub open spec fn let_within(t: SyntaxTree, i: int) -> bool
    decreases t.size() - i, 1int, 0int,
{
    if kind_of(t, i) == "let_condition"@ || kind_of(t, i) == "let_chain"@ {
        true
    } else {
        let_among(t, i, named_children_of(t, i), 0)
    }
}

/// Whether a `let` condition lies within one of `kids[k..]`, the named
/// children of node `i`
pub open spec fn let_among(t: SyntaxTree, i: int, kids: Seq<usize>, k: int) -> bool
    decreases t.size() - i, 0int, kids.len() - k,
{
    if k < 0 || k >= kids.len() {
        false
    } else if i < kids[k] < t.size() && let_within(t, kids[k] as int) {
        true
    } else {
        let_among(t, i, kids, k + 1)
    }
}

/// Whether the macro invocation `n` calls `panic`, `unreachable`, `todo`,
/// or `unimplemented`
pub open spec fn diverging_macro(t: SyntaxTree, n: int) -> bool {
    match field_child(t, n, "macro"@) {
        None => false,
        Some(m) => {
            let name = text_of(t, m as int);
            name == "panic"@ || name == "unreachable"@ || name == "todo"@ || name == "unimplemented"@
        },
    }
}

/// Whether node `n` diverges syntactically: a `return`, `break`, or
/// `continue`, a statement made of one, or a call of a diverging macro
pub open spec fn node_diverges(t: SyntaxTree, n: int) -> bool
    decreases t.size() - n,
{
    let k = kind_of(t, n);
    if k == "return_expression"@ || k == "break_expression"@ || k == "continue_expression"@ {
        true
    } else if k == "expression_statement"@ {
        match named_child_spec(t, n, 0) {
            None => false,
            Some(c) => n < c < t.size() && node_diverges(t, c as int),
        }
    } else if k == "macro_invocation"@ {
        diverging_macro(t, n)
    } else {
        false
    }
}

/// Whether node `n` is a `return`, `break`, or `continue` expression
pub open spec fn jump_kind(t: SyntaxTree, n: int) -> bool {
    kind_of(t, n) == "return_expression"@ || kind_of(t, n) == "break_expression"@ || kind_of(t, n)
        == "continue_expression"@
}

/// A `return`, `break`, or `continue` diverges, bare or as the one
/// expression of a statement
pub proof fn law_jumps_diverge(t: SyntaxTree, n: usize)
    requires
        jump_kind(t, n as int),
    ensures
        node_diverges(t, n as int),
        forall|s: usize|
            kind_of(t, s as int) == "expression_statement"@ && s < n < t.size() && #[trigger] named_child_spec(
                t,
                s as int,
                0,
            ) == Some(n) ==> node_diverges(t, s as int),
{
    assert forall|s: usize|
        kind_of(t, s as int) == "expression_statement"@ && s < n < t.size() && #[trigger] named_child_spec(
            t,
            s as int,
            0,
        ) == Some(n) implies node_diverges(t, s as int) by {
        assert(node_diverges(t, n as int));
    }
}

/// An `if let` whose `else` block ends in a `return`, `break`, or
/// `continue`, with or without a semicolon, is never flagged
pub proof fn law_if_let_ending_in_a_jump_is_kept(t: SyntaxTree, node: usize, a: usize, b: usize, last: usize, c: usize)
    requires
        field_child(t, node as int, "alternative"@) == Some(a),
        named_child_spec(t, a as int, 0) == Some(b),
        kind_of(t, b as int) == "block"@,
        named_children_of(t, b as int).len() > 0,
        named_children_of(t, b as int).last() == last,
        jump_kind(t, last as int) || (kind_of(t, last as int) == "expression_statement"@ && last < c < t.size()
            && named_child_spec(t, last as int, 0) == Some(c) && jump_kind(t, c as int)),
    ensures
        if_findings(t, node as int) == Seq::<(Seq<char>, Seq<char>, usize, usize)>::empty(),
{
    if jump_kind(t, last as int) {
        law_jumps_diverge(t, last);
    } else {
        law_jumps_diverge(t, c);
    }
    assert(block_diverges(t, b as int));
    assert(else_diverges(t, a as int));
}

/// Whether the `else` clause `e` diverges: its body is a block whose last
/// named child diverges
pub open spec fn else_diverges(t: SyntaxTree, e: int) -> bool {
    match named_child_spec(t, e, 0) {
        None => false,
        Some(b) => kind_of(t, b as int) == "block"@ && block_diverges(t, b as int),
    }
}

/// Whether the last statement or expression of the block `b` diverges
pub open spec fn block_diverges(t: SyntaxTree, b: int) -> bool {
    named_children_of(t, b).len() > 0 && node_diverges(t, named_children_of(t, b).last() as int)
}

/// What the rule reports of the `if_expression` node `node`
pub open spec fn if_findings(t: SyntaxTree, node: int) -> Seq<(Seq<char>, Seq<char>, usize, usize)> {
    match field_child(t, node, "condition"@) {
        None => Seq::empty(),
        Some(c) => if !let_within(t, c as int) {
            Seq::empty()
        } else {
            match field_child(t, node, "alternative"@) {
                None => Seq::empty(),
                Some(a) => if else_diverges(t, a as int) {
                    Seq::empty()
                } else {
                    seq![
                        (
                            "lint.if-let-with-else"@,
                            "`if let` with `else` should be written as a `match` expression"@,
                            t.node_at(node).start,
                            t.node_at(node).end,
                        ),
                    ]
                },
            }
        },
    }
}

/// Checks whether a condition node contains a `let` pattern
///
/// Returns `true` if the node itself is a `let_condition` or `let_chain`,
/// or if one lies below it.
pub fn has_let_condition(t: &SyntaxTree, n: usize) -> (r: bool)
    requires
        t.valid(),
        n < t.size(),
    ensures
        r == let_within(*t, n as int),
    decreases t.size() - n,
{
    if kind_is(t, n, "let_condition") || kind_is(t, n, "let_chain") {
        return true;
    }
    let kids = named_children(t, n);
    let mut k: usize = 0;
    while k < kids.len()
        invariant
            t.valid(),
            n < t.size(),
            kids@ == named_children_of(*t, n as int),
            forall|j: int| 0 <= j < kids@.len() ==> n < #[trigger] kids@[j] < t.size(),
            k <= kids@.len(),
            let_among(*t, n as int, kids@, 0) == let_among(*t, n as int, kids@, k as int),
        decreases kids@.len() - k,
    {
        if has_let_condition(t, kids[k]) {
            return true;
        }
        k += 1;
    }
    false
}

/// Checks whether a macro invocation calls a known-diverging macro
pub fn is_diverging_macro(t: &SyntaxTree, n: usize) -> (r: bool)
    requires
        t.valid(),
        n < t.size(),
    ensures
        r == diverging_macro(*t, n as int),
{
    let m = match child_by_field_name(t, n, "macro") {
        Some(m) => m,
        None => return false,
    };
    let name = t.node(m).text.as_str();
    text_is(name, "panic") || text_is(name, "unreachable") || text_is(name, "todo") || text_is(
        name,
        "unimplemented",
    )
}

/// Checks whether a single node represents a diverging expression
pub fn is_node_diverging(t: &SyntaxTree, n: usize) -> (r: bool)
    requires
        t.valid(),
        n < t.size(),
    ensures
        r == node_diverges(*t, n as int),
    decreases t.size() - n,
{
    if kind_is(t, n, "return_expression") || kind_is(t, n, "break_expression") || kind_is(
        t,
        n,
        "continue_expression",
    ) {
        true
    } else if kind_is(t, n, "expression_statement") {
        proof {
            lemma_named_child_after(*t, n as int, 0);
        }
        match named_child(t, n, 0) {
            Some(c) => is_node_diverging(t, c),
            None => false,
        }
    } else if kind_is(t, n, "macro_invocation") {
        is_diverging_macro(t, n)
    } else {
        false
    }
}

/// A named child comes after its parent in a valid tree
pub proof fn lemma_named_child_after(t: SyntaxTree, n: int, index: int)
    requires
        t.valid(),
        0 <= n < t.size(),
    ensures
        match named_child_spec(t, n, index) {
            Some(c) => n < c < t.size(),
            None => true,
        },
{
    t.lemma_children(n);
    crate::syntax::lemma_named_prefix(t, t.children_of(n), t.children_of(n).len() as int);
    match named_child_spec(t, n, index) {
        Some(c) => {
            let named = named_children_of(t, n);
            assert(c == named[index]);
            let m = choose|m: int| 0 <= m < t.children_of(n).len() && #[trigger] named[index] == t.children_of(n)[m];
            assert(n < t.children_of(n)[m] < t.size());
        },
        None => {},
    }
}

/// Checks whether an else clause diverges syntactically
///
/// An else clause diverges if its last statement or expression is a
/// `return`, `break`, `continue`, or a call of a known-diverging macro like
/// `panic!`, `unreachable!`, `todo!`, or `unimplemented!`.
pub fn is_diverging(t: &SyntaxTree, e: usize) -> (r: bool)
    requires
        t.valid(),
        e < t.size(),
    ensures
        r == else_diverges(*t, e as int),
{
    let body = match named_child(t, e, 0) {
        Some(b) => b,
        None => return false,
    };
    if !kind_is(t, body, "block") {
        return false;
    }
    is_block_diverging(t, body)
}

/// Checks whether a block's last statement or expression diverges
fn is_block_diverging(t: &SyntaxTree, block: usize) -> (r: bool)
    requires
        t.valid(),
        block < t.size(),
    ensures
        r == block_diverges(*t, block as int),
{
    let kids = named_children(t, block);
    if kids.len() == 0 {
        return false;
    }
    is_node_diverging(t, kids[kids.len() - 1])
}

impl IfLetWithElse {
    /// Checks one `if_expression`: an `if let` whose `else` does not diverge
    /// gets a warning
    pub fn check_if_expression(&self, t: &SyntaxTree, node: usize) -> (r: Vec<Diagnostic>)
        requires
            t.valid(),
            node < t.size(),
        ensures
            all_under(diag_views(r@), "lint.if-let-with-else"@),
            diag_views(r@) == if_findings(*t, node as int),
    {
        let mut out: Vec<Diagnostic> = Vec::new();
        assert(diag_views(out@) =~= Seq::empty());
        let condition = match child_by_field_name(t, node, "condition") {
            Some(c) => c,
            None => return out,
        };
        if !has_let_condition(t, condition) {
            return out;
        }
        let alternative = match child_by_field_name(t, node, "alternative") {
            Some(a) => a,
            None => return out,
        };
        if is_diverging(t, alternative) {
            return out;
        }
        let n = t.node(node);
        let d = Diagnostic::new(
            "lint.if-let-with-else",
            "`if let` with `else` should be written as a `match` expression".to_owned(),
            n.start,
            n.end,
        );
        out.push(d);
        assert(diag_views(out@) =~= seq![diag_view(d)]);
        out
    }
}

} // verus!
