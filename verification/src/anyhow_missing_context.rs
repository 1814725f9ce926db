//! Flags `?` on a `Result` without `.context()` in functions that return
//! `anyhow` errors
//!
//! A `?` without `.context()` propagates an error with no information about
//! the operation that failed. The rule only speaks where the enclosing
//! function's error type is `anyhow::Error`, and leaves alone a `?` inside a
//! closure, an `async` block, or a `try` block, whose body converts into its
//! own error type.
use vstd::prelude::*;

use crate::decorations::{path_view, Decorations, FnSignature, TypePath};
use crate::diagnostic::{all_under, diag_view, diag_views, Diagnostic};
use crate::syntax::{
    child_by_field_name, field_child, kind_is, kind_of, named_child, named_child_spec, text_of,
    SyntaxTree,
};
use crate::text::text_is;

verus! {

/// Flags `?` without error context in `anyhow` functions
pub struct AnyhowMissingContext;

/// Whether a node kind owns the `?` inside it: a closure, or an `async`,
/// `gen`, `const`, or `try` block
pub open spec fn is_barrier(kind: Seq<char>) -> bool {
    ||| kind == "async_block"@
    ||| kind == "closure_expression"@
    ||| kind == "const_block"@
    ||| kind == "gen_block"@
    ||| kind == "try_block"@
}

/// The signature attached to the function that encloses node `i`, walking
/// up no further than the first barrier
pub open spec fn enclosing_signature(t: SyntaxTree, d: Decorations, i: int) -> Option<FnSignature>
    decreases i,
{
    match t.parent_of(i) {
        None => None,
        Some(p) => if p >= i || p < 0 {
            None
        } else if is_barrier(kind_of(t, p as int)) {
            None
        } else if kind_of(t, p as int) == "function_item"@ {
            d.signature_of(p)
        } else {
            enclosing_signature(t, d, p as int)
        },
    }
}

/// Whether a definition path is that of `anyhow::Error`, which `anyhow`
/// declares at its crate root
pub open spec fn is_anyhow_error(p: TypePath) -> bool {
    path_view(p) == ("anyhow"@, Seq::<Seq<char>>::empty(), "Error"@)
}

/// Whether node `o` is a call of a method named `context` or
/// `with_context`
pub open spec fn is_context_call_spec(t: SyntaxTree, o: int) -> bool {
    &&& kind_of(t, o) == "call_expression"@
    &&& match field_child(t, o, "function"@) {
        None => false,
        Some(f) => {
            &&& kind_of(t, f as int) == "field_expression"@
            &&& match field_child(t, f as int, "field"@) {
                None => false,
                Some(x) => text_of(t, x as int) == "context"@ || text_of(t, x as int) == "with_context"@,
            }
        },
    }
}

/// What the rule reports of the `try_expression` node `node`
pub open spec fn try_findings(t: SyntaxTree, d: Decorations, node: int) -> Seq<
    (Seq<char>, Seq<char>, usize, usize),
> {
    match named_child_spec(t, node, 0) {
        None => Seq::empty(),
        Some(o) => match d.resolved_of(o) {
            None => Seq::empty(),
            Some(ty) => if ty.is_option || !ty.is_result {
                Seq::empty()
            } else {
                match enclosing_signature(t, d, node) {
                    None => Seq::empty(),
                    Some(sig) => match sig.error {
                        None => Seq::empty(),
                        Some(p) => if !is_anyhow_error(p) || is_context_call_spec(t, o as int) {
                            Seq::empty()
                        } else {
                            seq![
                                (
                                    "lint.anyhow-missing-context"@,
                                    "use of `?` on Result without error context"@,
                                    t.node_at(node).start,
                                    t.node_at(node).end,
                                ),
                            ]
                        },
                    },
                }
            },
        },
    }
}

/// Returns whether a node kind owns the `?` inside it
fn barrier_kind(t: &SyntaxTree, i: usize) -> (r: bool)
    requires
        i < t.size(),
    ensures
        r == is_barrier(kind_of(*t, i as int)),
{
    kind_is(t, i, "async_block") || kind_is(t, i, "closure_expression") || kind_is(t, i, "const_block")
        || kind_is(t, i, "gen_block") || kind_is(t, i, "try_block")
}

/// Walks up from `node` to the enclosing `function_item` and returns its
/// signature, if one is attached
///
/// Returns [`None`] when the walk meets a closure or a block that owns its
/// `?` first. That accepts a false negative: a `?` inside a closure that
/// itself returns `anyhow::Result` goes unflagged, because a missed warning
/// costs less than a suggestion that does not compile.
pub fn find_enclosing_fn_signature<'a>(t: &SyntaxTree, d: &'a Decorations, node: usize) -> (r: Option<
    &'a FnSignature,
>)
    requires
        t.valid(),
        node < t.size(),
    ensures
        match r {
            Some(s) => enclosing_signature(*t, *d, node as int) == Some(*s),
            None => enclosing_signature(*t, *d, node as int) is None,
        },
{
    let mut current = node;
    loop
        invariant
            t.valid(),
            current < t.size(),
            enclosing_signature(*t, *d, node as int) == enclosing_signature(*t, *d, current as int),
        decreases current,
    {
        let p = match t.parent(current) {
            Some(p) => p,
            None => return None,
        };
        if barrier_kind(t, p) {
            return None;
        }
        if kind_is(t, p, "function_item") {
            return d.fn_signature(p);
        }
        current = p;
    }
}

/// Returns whether a definition path is that of `anyhow::Error`
pub fn is_anyhow_error_path(p: &TypePath) -> (r: bool)
    ensures
        r == is_anyhow_error(*p),
{
    let ok = text_is(p.krate.as_str(), "anyhow") && p.modules.len() == 0 && text_is(p.name.as_str(), "Error");
    proof {
        reveal_strlit("anyhow");
        reveal_strlit("Error");
        if p.modules@.len() == 0 {
            assert(p.modules@.map_values(|m: String| m@) =~= Seq::<Seq<char>>::empty());
        }
    }
    ok
}

/// Returns whether the operand is a `.context()` or `.with_context()` call
pub fn is_context_call(t: &SyntaxTree, o: usize) -> (r: bool)
    requires
        t.valid(),
        o < t.size(),
    ensures
        r == is_context_call_spec(*t, o as int),
{
    if !kind_is(t, o, "call_expression") {
        return false;
    }
    let f = match child_by_field_name(t, o, "function") {
        Some(f) => f,
        None => return false,
    };
    if !kind_is(t, f, "field_expression") {
        return false;
    }
    let x = match child_by_field_name(t, f, "field") {
        Some(x) => x,
        None => return false,
    };
    let name = t.node(x).text.as_str();
    text_is(name, "context") || text_is(name, "with_context")
}

impl AnyhowMissingContext {
    /// Checks one `try_expression`: a `?` on a `Result` without context
    /// inside a function whose error type is `anyhow::Error` gets a warning
    pub fn check_try_expression(&self, t: &SyntaxTree, d: &Decorations, node: usize) -> (r: Vec<
        Diagnostic,
    >)
        requires
            t.valid(),
            node < t.size(),
        ensures
            all_under(diag_views(r@), "lint.anyhow-missing-context"@),
            match named_child_spec(*t, node as int, 0) {
                Some(o) => d.resolved_of(o) is None ==> r@.len() == 0,
                None => r@.len() == 0,
            },
            enclosing_signature(*t, *d, node as int) is None ==> r@.len() == 0,
            diag_views(r@) == try_findings(*t, *d, node as int),
    {
        let out: Vec<Diagnostic> = Vec::new();
        assert(diag_views(out@) =~= Seq::empty());
        let operand = match named_child(t, node, 0) {
            Some(o) => o,
            None => return out,
        };
        let resolved = match d.resolved_type(operand) {
            Some(ty) => ty,
            None => return out,
        };
        if resolved.is_option || !resolved.is_result {
            return out;
        }
        let signature = match find_enclosing_fn_signature(t, d, node) {
            Some(s) => s,
            None => return out,
        };
        let error = match &signature.error {
            Some(p) => p,
            None => return out,
        };
        if !is_anyhow_error_path(error) || is_context_call(t, operand) {
            return out;
        }
        let n = t.node(node);
        let d = Diagnostic::new(
            "lint.anyhow-missing-context",
            "use of `?` on Result without error context".to_owned(),
            n.start,
            n.end,
        );
        let mut out = out;
        out.push(d);
        assert(diag_views(out@) =~= seq![diag_view(d)]);
        out
    }
}

} // verus!
