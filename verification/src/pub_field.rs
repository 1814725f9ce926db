//! Flags `pub` fields on struct definitions
//!
//! A public field lets a caller read and write state the type owns. The
//! house convention is a private field with an accessor, so the type keeps
//! control of its own invariants. Restricted forms such as `pub(crate)`
//! narrow the exposure on purpose, so the rule leaves them alone. Enums and
//! unions are out of scope.
use vstd::prelude::*;

use crate::diagnostic::{all_under, diag_view, diag_views, Diagnostic};
use crate::syntax::{
    child_by_field_name, field_child, kind_is, kind_of, named_children, named_children_of, text_of,
    SyntaxTree,
};
use crate::text::{append, decimal, push_decimal};

verus! {

/// Flags public fields of structs
pub struct PubField;

/// A finding of this rule
pub type Finding = (Seq<char>, Seq<char>, usize, usize);

/// Whether node `n` is a bare `pub`: a visibility modifier without the
/// named child that a restricted form such as `pub(crate)` holds
pub open spec fn bare_pub(t: SyntaxTree, n: int) -> bool {
    kind_of(t, n) == "visibility_modifier"@ && named_children_of(t, n).len() == 0
}

/// The first of `kids[k..]` that is a bare `pub`
pub open spec fn first_bare_pub(t: SyntaxTree, kids: Seq<usize>, k: int) -> Option<usize>
    decreases kids.len() - k,
{
    if k < 0 || k >= kids.len() {
        None
    } else if bare_pub(t, kids[k] as int) {
        Some(kids[k])
    } else {
        first_bare_pub(t, kids, k + 1)
    }
}

/// What the rule says of the public named field `name`
pub open spec fn named_message(name: Seq<char>) -> Seq<char> {
    "field `"@ + name + "` is public; make it private and derive a getter with `getset`"@
}

/// What the rule says of the public tuple field at `index`
pub open spec fn ordered_message(index: nat) -> Seq<char> {
    "field "@ + decimal(index) + " is public; make it private and add an accessor method"@
}

/// The findings for the public fields among `fields[..k]` of a struct with
/// named fields
pub open spec fn named_findings(t: SyntaxTree, fields: Seq<usize>, k: int) -> Seq<Finding>
    decreases k,
{
    if k <= 0 || k > fields.len() {
        Seq::empty()
    } else {
        let rest = named_findings(t, fields, k - 1);
        let f = fields[k - 1] as int;
        if kind_of(t, f) != "field_declaration"@ {
            rest
        } else {
            match first_bare_pub(t, named_children_of(t, f), 0) {
                None => rest,
                Some(v) => match field_child(t, f, "name"@) {
                    None => rest,
                    Some(name) => rest.push(
                        (
                            "lint.pub-field"@,
                            named_message(text_of(t, name as int)),
                            t.node_at(v as int).start,
                            t.node_at(v as int).end,
                        ),
                    ),
                },
            }
        }
    }
}

/// The number of commas among `kids[..k]`
pub open spec fn commas(t: SyntaxTree, kids: Seq<usize>, k: int) -> nat
    decreases k,
{
    if k <= 0 || k > kids.len() {
        0
    } else if kind_of(t, kids[k - 1] as int) == ","@ {
        commas(t, kids, k - 1) + 1
    } else {
        commas(t, kids, k - 1)
    }
}

/// The findings for the bare `pub` modifiers among `kids[..k]` of a tuple
/// struct's body, each naming the field by the commas before it
pub open spec fn ordered_findings(t: SyntaxTree, kids: Seq<usize>, k: int) -> Seq<Finding>
    decreases k,
{
    if k <= 0 || k > kids.len() {
        Seq::empty()
    } else {
        let rest = ordered_findings(t, kids, k - 1);
        let c = kids[k - 1] as int;
        if kind_of(t, c) != ","@ && bare_pub(t, c) {
            rest.push(
                (
                    "lint.pub-field"@,
                    ordered_message(commas(t, kids, k - 1)),
                    t.node_at(c).start,
                    t.node_at(c).end,
                ),
            )
        } else {
            rest
        }
    }
}

/// What the rule reports of the struct `node`
pub open spec fn struct_findings(t: SyntaxTree, node: int) -> Seq<Finding> {
    match field_child(t, node, "body"@) {
        None => Seq::empty(),
        Some(b) => if kind_of(t, b as int) == "field_declaration_list"@ {
            named_findings(
                t,
                named_children_of(t, b as int),
                named_children_of(t, b as int).len() as int,
            )
        } else if kind_of(t, b as int) == "ordered_field_declaration_list"@ {
            ordered_findings(t, t.children_of(b as int), t.children_of(b as int).len() as int)
        } else {
            Seq::empty()
        },
    }
}

/// Returns whether the given node is a bare `pub` visibility modifier
///
/// A restricted form such as `pub(crate)` holds its scope as a named child,
/// so a bare `pub` is the one with no named children.
pub fn is_bare_pub(t: &SyntaxTree, n: usize) -> (r: bool)
    requires
        t.valid(),
        n < t.size(),
    ensures
        r == bare_pub(*t, n as int),
{
    kind_is(t, n, "visibility_modifier") && named_children(t, n).len() == 0
}

/// Returns a diagnostic for every public field of a named-field struct
pub fn named_field_diagnostics(t: &SyntaxTree, body: usize) -> (r: Vec<Diagnostic>)
    requires
        t.valid(),
        body < t.size(),
    ensures
        all_under(diag_views(r@), "lint.pub-field"@),
        diag_views(r@) == named_findings(
            *t,
            named_children_of(*t, body as int),
            named_children_of(*t, body as int).len() as int,
        ),
{
    let fields = named_children(t, body);
    let mut out: Vec<Diagnostic> = Vec::new();
    assert(diag_views(out@) =~= Seq::empty());
    let mut k: usize = 0;
    while k < fields.len()
        invariant
            t.valid(),
            fields@ == named_children_of(*t, body as int),
            forall|j: int| 0 <= j < fields@.len() ==> #[trigger] fields@[j] < t.size(),
            k <= fields@.len(),
            diag_views(out@) == named_findings(*t, fields@, k as int),
            all_under(diag_views(out@), "lint.pub-field"@),
        decreases fields@.len() - k,
    {
        let f = fields[k];
        if kind_is(t, f, "field_declaration") {
            let parts = named_children(t, f);
            let mut m: usize = 0;
            while m < parts.len() && !is_bare_pub(t, parts[m])
                invariant
                    t.valid(),
                    parts@ == named_children_of(*t, f as int),
                    forall|j: int| 0 <= j < parts@.len() ==> #[trigger] parts@[j] < t.size(),
                    m <= parts@.len(),
                    first_bare_pub(*t, parts@, 0) == first_bare_pub(*t, parts@, m as int),
                decreases parts@.len() - m,
            {
                m += 1;
            }
            if m < parts.len() {
                match child_by_field_name(t, f, "name") {
                    Some(name) => {
                        let v = t.node(parts[m]);
                        let mut message = String::new();
                        append(&mut message, "field `");
                        append(&mut message, t.node(name).text.as_str());
                        append(
                            &mut message,
                            "` is public; make it private and derive a getter with `getset`",
                        );
                        let d = Diagnostic::new("lint.pub-field", message, v.start, v.end);
                        let ghost before = out@;
                        out.push(d);
                        assert(diag_views(out@) =~= diag_views(before).push(diag_view(d)));
                        assert(diag_views(out@)[diag_views(out@).len() - 1] == diag_view(d));
                    },
                    None => {},
                }
            }
        }
        k += 1;
    }
    out
}

/// Returns a diagnostic for every public field of a tuple struct
///
/// The body holds no per-field node. Each `visibility_modifier` is a flat
/// sibling of the type it qualifies, so the commas before a modifier give
/// the field's index. A comma that belongs to a type sits inside that type
/// and is no child of the body.
pub fn ordered_field_diagnostics(t: &SyntaxTree, body: usize) -> (r: Vec<Diagnostic>)
    requires
        t.valid(),
        body < t.size(),
    ensures
        all_under(diag_views(r@), "lint.pub-field"@),
        diag_views(r@) == ordered_findings(
            *t,
            t.children_of(body as int),
            t.children_of(body as int).len() as int,
        ),
{
    let kids = t.children(body);
    proof {
        t.lemma_children(body as int);
    }
    let mut out: Vec<Diagnostic> = Vec::new();
    assert(diag_views(out@) =~= Seq::empty());
    let mut index: usize = 0;
    let mut k: usize = 0;
    while k < kids.len()
        invariant
            t.valid(),
            kids@ == t.children_of(body as int),
            kids@.len() <= 4294967295,
            forall|j: int| 0 <= j < kids@.len() ==> #[trigger] kids@[j] < t.size(),
            k <= kids@.len(),
            index == commas(*t, kids@, k as int),
            index <= k,
            diag_views(out@) == ordered_findings(*t, kids@, k as int),
            all_under(diag_views(out@), "lint.pub-field"@),
        decreases kids@.len() - k,
    {
        let c = kids[k];
        if kind_is(t, c, ",") {
            index += 1;
        } else if is_bare_pub(t, c) {
            let n = t.node(c);
            let mut message = String::new();
            append(&mut message, "field ");
            push_decimal(&mut message, index);
            append(&mut message, " is public; make it private and add an accessor method");
            let d = Diagnostic::new("lint.pub-field", message, n.start, n.end);
            let ghost before = out@;
            out.push(d);
            assert(diag_views(out@) =~= diag_views(before).push(diag_view(d)));
                        assert(diag_views(out@)[diag_views(out@).len() - 1] == diag_view(d));
        }
        k += 1;
    }
    out
}

impl PubField {
    /// Checks a struct: each field with a bare `pub` gets a warning
    pub fn check_struct_item(&self, t: &SyntaxTree, node: usize) -> (r: Vec<Diagnostic>)
        requires
            t.valid(),
            node < t.size(),
        ensures
            all_under(diag_views(r@), "lint.pub-field"@),
            diag_views(r@) == struct_findings(*t, node as int),
    {
        let body = match child_by_field_name(t, node, "body") {
            Some(b) => b,
            None => {
                let out: Vec<Diagnostic> = Vec::new();
                assert(diag_views(out@) =~= Seq::empty());
                return out;
            },
        };
        if kind_is(t, body, "field_declaration_list") {
            named_field_diagnostics(t, body)
        } else if kind_is(t, body, "ordered_field_declaration_list") {
            ordered_field_diagnostics(t, body)
        } else {
            let out: Vec<Diagnostic> = Vec::new();
            assert(diag_views(out@) =~= Seq::empty());
            out
        }
    }
}

} // verus!
