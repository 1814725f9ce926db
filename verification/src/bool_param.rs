//! Flags `bool` parameters in function signatures and `bool` fields in
//! struct definitions
//!
//! Boolean parameters and fields obscure intent at call sites and in data
//! models. An enum with meaningful variant names makes the code
//! self-documenting and prevents accidental transposition of arguments.
//!
//! The rule skips a signature that sits on a boundary, because a caller
//! outside Rust fixes it: an `extern` ABI, an `extern` block, or an
//! attribute macro the project named in `boundary-attributes`, the same
//! option `lint.repeated-primitive-params` reads. A struct is not a
//! signature, so a `bool` field is reported whatever the struct carries.
use vstd::prelude::*;

use crate::boundary::{crosses_a_boundary, crosses_spec, name_views};
use crate::diagnostic::{all_under, diag_view, diag_views, Diagnostic};
use crate::repeated_primitive_params::signature_spec;
use crate::syntax::{
    child_by_field_name, field_child, kind_is, kind_of, named_children, named_children_of, text_of,
    SyntaxTree,
};
use crate::text::text_is;

verus! {

/// Flags `bool` parameters and `bool` struct fields
pub struct BoolParam {
    boundary_attributes: Vec<String>,
}

/// Whether node `n` is the primitive type `bool`
pub open spec fn is_bool(t: SyntaxTree, n: int) -> bool {
    kind_of(t, n) == "primitive_type"@ && text_of(t, n) == "bool"@
}

/// What the rule says of a `bool` parameter
pub open spec fn parameter_message() -> Seq<char> {
    "parameter has type `bool`; use an enum with meaningful variants"@
}

/// What the rule says of a `bool` field
pub open spec fn field_message() -> Seq<char> {
    "struct field has type `bool`; use an enum with meaningful variants"@
}

/// The findings for the nodes among `kids[..k]` of kind `kind` whose
/// `type` field is `bool`, each saying `message` about the type
pub open spec fn typed_findings(
    t: SyntaxTree,
    kids: Seq<usize>,
    k: int,
    kind: Seq<char>,
    message: Seq<char>,
) -> Seq<(Seq<char>, Seq<char>, usize, usize)>
    decreases k,
{
    if k <= 0 || k > kids.len() {
        Seq::empty()
    } else {
        let rest = typed_findings(t, kids, k - 1, kind, message);
        let c = kids[k - 1] as int;
        if kind_of(t, c) != kind {
            rest
        } else {
            match field_child(t, c, "type"@) {
                Some(ty) => if is_bool(t, ty as int) {
                    rest.push(
                        ("lint.bool-param"@, message, t.node_at(ty as int).start, t.node_at(ty as int).end),
                    )
                } else {
                    rest
                },
                None => rest,
            }
        }
    }
}

/// What the rule reports of the function `node`, given the boundary
/// attributes `names`
pub open spec fn function_findings(t: SyntaxTree, node: int, names: Seq<Seq<char>>) -> Seq<
    (Seq<char>, Seq<char>, usize, usize),
> {
    if crosses_spec(t, node, names) {
        Seq::empty()
    } else {
        match field_child(t, node, "parameters"@) {
            None => Seq::empty(),
            Some(p) => typed_findings(
                t,
                named_children_of(t, p as int),
                named_children_of(t, p as int).len() as int,
                "parameter"@,
                parameter_message(),
            ),
        }
    }
}

/// A signature on a boundary is exempt from this rule and from
/// `lint.repeated-primitive-params` alike: the `boundary-attributes` option
/// means the same thing to both
pub proof fn law_boundary_exempts_both_rules(t: SyntaxTree, node: int, names: Seq<Seq<char>>)
    requires
        crosses_spec(t, node, names),
    ensures
        function_findings(t, node, names) == Seq::<(Seq<char>, Seq<char>, usize, usize)>::empty(),
        signature_spec(t, node, names) == Seq::<(Seq<char>, Seq<char>, usize, usize)>::empty(),
{
}

/// What the rule reports of the struct `node`
pub open spec fn struct_findings(t: SyntaxTree, node: int) -> Seq<(Seq<char>, Seq<char>, usize, usize)> {
    match field_child(t, node, "body"@) {
        None => Seq::empty(),
        Some(b) => typed_findings(
            t,
            named_children_of(t, b as int),
            named_children_of(t, b as int).len() as int,
            "field_declaration"@,
            field_message(),
        ),
    }
}

/// Returns whether the given node is a `primitive_type` with text `"bool"`
pub fn is_bool_type(t: &SyntaxTree, n: usize) -> (r: bool)
    requires
        n < t.size(),
    ensures
        r == is_bool(*t, n as int),
{
    kind_is(t, n, "primitive_type") && text_is(t.node(n).text.as_str(), "bool")
}

/// The findings for the named children of `parent` of kind `kind` whose
/// type is `bool`
fn bool_typed(t: &SyntaxTree, parent: usize, kind: &str, message: &str) -> (r: Vec<Diagnostic>)
    requires
        t.valid(),
        parent < t.size(),
    ensures
        all_under(diag_views(r@), "lint.bool-param"@),
        diag_views(r@) == typed_findings(
            *t,
            named_children_of(*t, parent as int),
            named_children_of(*t, parent as int).len() as int,
            kind@,
            message@,
        ),
{
    let kids = named_children(t, parent);
    let mut out: Vec<Diagnostic> = Vec::new();
    assert(diag_views(out@) =~= Seq::empty());
    let mut k: usize = 0;
    while k < kids.len()
        invariant
            t.valid(),
            kids@ == named_children_of(*t, parent as int),
            forall|j: int| 0 <= j < kids@.len() ==> #[trigger] kids@[j] < t.size(),
            k <= kids@.len(),
            diag_views(out@) == typed_findings(*t, kids@, k as int, kind@, message@),
            all_under(diag_views(out@), "lint.bool-param"@),
        decreases kids@.len() - k,
    {
        let c = kids[k];
        if kind_is(t, c, kind) {
            match child_by_field_name(t, c, "type") {
                Some(ty) => {
                    if is_bool_type(t, ty) {
                        let n = t.node(ty);
                        let d = Diagnostic::new("lint.bool-param", message.to_owned(), n.start, n.end);
                        let ghost before = out@;
                        out.push(d);
                        assert(diag_views(out@) =~= diag_views(before).push(diag_view(d)));
                        assert(diag_views(out@)[diag_views(out@).len() - 1] == diag_view(d));
                    }
                },
                None => {},
            }
        }
        k += 1;
    }
    out
}

impl BoolParam {
    /// The attribute macros that this pass treats as a boundary
    pub closed spec fn boundary_view(&self) -> Seq<Seq<char>> {
        name_views(self.boundary_attributes@)
    }

    /// Creates a pass with no boundary attributes, which reports every
    /// signature that `extern` does not already excuse
    pub fn new() -> (r: Self)
        ensures
            r.boundary_view() == Seq::<Seq<char>>::empty(),
    {
        BoolParam { boundary_attributes: Vec::new() }
    }

    /// Sets the attribute macros that mark a boundary, as the
    /// `boundary-attributes` option names them; [`None`] clears them
    pub fn configure(&mut self, boundary_attributes: Option<Vec<String>>)
        ensures
            final(self).boundary_view() == match boundary_attributes {
                Some(v) => name_views(v@),
                None => Seq::<Seq<char>>::empty(),
            },
    {
        self.boundary_attributes = match boundary_attributes {
            Some(v) => v,
            None => Vec::new(),
        };
    }

    /// Checks a function with a body: each `bool` parameter gets a warning,
    /// unless the signature sits on a boundary
    pub fn check_function_item(&self, t: &SyntaxTree, node: usize) -> (r: Vec<Diagnostic>)
        requires
            t.valid(),
            node < t.size(),
        ensures
            all_under(diag_views(r@), "lint.bool-param"@),
            diag_views(r@) == function_findings(*t, node as int, self.boundary_view()),
    {
        if crosses_a_boundary(t, node, self.boundary_attributes.as_slice()) {
            let out: Vec<Diagnostic> = Vec::new();
            assert(diag_views(out@) =~= Seq::empty());
            return out;
        }
        match child_by_field_name(t, node, "parameters") {
            Some(p) => bool_typed(
                t,
                p,
                "parameter",
                "parameter has type `bool`; use an enum with meaningful variants",
            ),
            None => {
                let out: Vec<Diagnostic> = Vec::new();
                assert(diag_views(out@) =~= Seq::empty());
                out
            },
        }
    }

    /// Checks a struct: each `bool` field gets a warning
    pub fn check_struct_item(&self, t: &SyntaxTree, node: usize) -> (r: Vec<Diagnostic>)
        requires
            t.valid(),
            node < t.size(),
        ensures
            all_under(diag_views(r@), "lint.bool-param"@),
            diag_views(r@) == struct_findings(*t, node as int),
    {
        match child_by_field_name(t, node, "body") {
            Some(b) => bool_typed(
                t,
                b,
                "field_declaration",
                "struct field has type `bool`; use an enum with meaningful variants",
            ),
            None => {
                let out: Vec<Diagnostic> = Vec::new();
                assert(diag_views(out@) =~= Seq::empty());
                out
            },
        }
    }
}

} // verus!
