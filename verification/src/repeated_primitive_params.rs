//! Flags a function that takes two or more parameters of one primitive type
//!
//! Each parameter accepts the argument meant for the other, so a caller can
//! swap them and the code still compiles. A newtype for each parameter turns
//! the swap into a type error.
use vstd::prelude::*;

use crate::boundary::{crosses_a_boundary, crosses_spec, has_named_child_of_kind, name_views, some_named_kind};
use crate::diagnostic::{all_under, diag_view, diag_views, Diagnostic};
use crate::syntax::{
    child_by_field_name, field_child, kind_is, kind_of, named_children, named_children_of,
    text_of, SyntaxTree,
};
use crate::text::{append, text_is};

verus! {

broadcast use vstd::seq_lib::group_seq_properties;

/// Flags a function that takes two or more parameters of one primitive type
///
/// A lone primitive parameter is safe, because it has no sibling to swap
/// with. Return types and struct fields are not argument positions, so the
/// rule never looks at them. `bool` belongs to `lint.bool-param`. The
/// `boundary-attributes` option names the attribute macros that fix a
/// signature the way `extern` does.
pub struct RepeatedPrimitiveParams {
    boundary_attributes: Vec<String>,
}

/// The rule's id
pub open spec fn repeated_rule() -> Seq<char> {
    "lint.repeated-primitive-params"@
}

/// The name to group the type at node `i` under, or [`None`] when the rule
/// does not track the type
///
/// The rule tracks the primitive types and `String`, but not `bool`. A
/// reference keeps its `&` and its `mut`, and a lifetime drops out.
pub open spec fn type_key(t: SyntaxTree, i: int) -> Option<Seq<char>>
    decreases t.size() - i,
{
    let kind = kind_of(t, i);
    let text = text_of(t, i);
    if kind == "primitive_type"@ {
        if text == "bool"@ {
            None
        } else {
            Some(text)
        }
    } else if kind == "type_identifier"@ {
        if text == "String"@ {
            Some("String"@)
        } else {
            None
        }
    } else if kind == "reference_type"@ {
        match field_child(t, i, "type"@) {
            None => None,
            Some(c) => if i < c < t.size() {
                match type_key(t, c as int) {
                    None => None,
                    Some(inner) => if some_named_kind(t, i, "mutable_specifier"@) {
                        Some("&mut "@ + inner)
                    } else {
                        Some("&"@ + inner)
                    },
                }
            } else {
                None
            },
        }
    } else {
        None
    }
}

/// Returns the name to group the type at `node` under, or [`None`] when the
/// rule does not track the type
pub fn primitive_type_name(t: &SyntaxTree, node: usize) -> (r: Option<String>)
    requires
        t.valid(),
        node < t.size(),
    ensures
        match r {
            Some(s) => type_key(*t, node as int) == Some(s@),
            None => type_key(*t, node as int) is None,
        },
    decreases t.size() - node,
{
    let text = t.node(node).text.as_str();
    if kind_is(t, node, "primitive_type") {
        if text_is(text, "bool") {
            None
        } else {
            Some(text.to_owned())
        }
    } else if kind_is(t, node, "type_identifier") {
        if text_is(text, "String") {
            Some("String".to_owned())
        } else {
            None
        }
    } else if kind_is(t, node, "reference_type") {
        let inner = match child_by_field_name(t, node, "type") {
            Some(c) => c,
            None => return None,
        };
        let inner = match primitive_type_name(t, inner) {
            Some(s) => s,
            None => return None,
        };
        let mut out = String::new();
        if has_named_child_of_kind(t, node, "mutable_specifier") {
            append(&mut out, "&mut ");
        } else {
            append(&mut out, "&");
        }
        append(&mut out, inner.as_str());
        Some(out)
    } else {
        None
    }
}

/// A name in backticks
pub open spec fn quote(name: Seq<char>) -> Seq<char> {
    "`"@ + name + "`"@
}

/// The first `k` names, each in backticks, separated by commas
pub open spec fn comma_join(names: Seq<Seq<char>>, k: int) -> Seq<char>
    decreases k,
{
    if k <= 0 {
        Seq::empty()
    } else if k == 1 {
        quote(names[0])
    } else {
        comma_join(names, k - 1) + ", "@ + quote(names[k - 1])
    }
}

/// Parameter names as an English list, each name in backticks
pub open spec fn joined_names(names: Seq<Seq<char>>) -> Seq<char> {
    let n = names.len() as int;
    if n == 0 {
        Seq::empty()
    } else if n == 1 {
        quote(names[0])
    } else if n == 2 {
        quote(names[0]) + " and "@ + quote(names[1])
    } else {
        comma_join(names, n - 1) + ", and "@ + quote(names[n - 1])
    }
}

/// The views of a list of string slices
pub open spec fn str_views(v: Seq<&str>) -> Seq<Seq<char>> {
    v.map_values(|x: &str| x@)
}

fn push_quoted(out: &mut String, name: &str)
    ensures
        final(out)@ == old(out)@ + quote(name@),
{
    append(out, "`");
    append(out, name);
    append(out, "`");
}

/// Joins parameter names into an English list, each name in backticks
pub fn join_names(names: &[&str]) -> (r: String)
    ensures
        r@ == joined_names(str_views(names@)),
{
    let ghost ns = str_views(names@);
    let n = names.len();
    let mut out = String::new();
    if n == 0 {
        return out;
    }
    if n == 1 {
        push_quoted(&mut out, names[0]);
        return out;
    }
    if n == 2 {
        push_quoted(&mut out, names[0]);
        append(&mut out, " and ");
        push_quoted(&mut out, names[1]);
        return out;
    }
    push_quoted(&mut out, names[0]);
    let mut k: usize = 1;
    while k < n - 1
        invariant
            n == names@.len(),
            n >= 3,
            ns == str_views(names@),
            1 <= k <= n - 1,
            out@ == comma_join(ns, k as int),
        decreases n - k,
    {
        append(&mut out, ", ");
        push_quoted(&mut out, names[k]);
        k += 1;
    }
    append(&mut out, ", and ");
    push_quoted(&mut out, names[n - 1]);
    out
}

/// The parameters of one signature grouped under one primitive type: the
/// type's name, the index of the first parameter's type node, and the
/// parameter names
pub struct ParameterGroup<'a> {
    pub type_label: String,
    pub type_node: usize,
    pub parameter_names: Vec<&'a str>,
}

/// What a group says, as plain values
pub open spec fn group_view(g: ParameterGroup) -> (Seq<char>, usize, Seq<Seq<char>>) {
    (g.type_label@, g.type_node, str_views(g.parameter_names@))
}

/// The views of a list of groups
pub open spec fn group_views(gs: Seq<ParameterGroup>) -> Seq<(Seq<char>, usize, Seq<Seq<char>>)> {
    gs.map_values(|g: ParameterGroup| group_view(g))
}

/// What parameter `p` contributes: its type's name, its type node, and its
/// pattern's text
pub open spec fn entry_of(t: SyntaxTree, p: int) -> Option<(Seq<char>, usize, Seq<char>)> {
    if kind_of(t, p) != "parameter"@ {
        None
    } else {
        match field_child(t, p, "type"@) {
            None => None,
            Some(ty) => match type_key(t, ty as int) {
                None => None,
                Some(name) => match field_child(t, p, "pattern"@) {
                    None => None,
                    Some(pat) => Some((name, ty, text_of(t, pat as int))),
                },
            },
        }
    }
}

/// The first group from the `j`-th on whose type is `name`
pub open spec fn group_named(gs: Seq<(Seq<char>, usize, Seq<Seq<char>>)>, name: Seq<char>, j: int) -> Option<int>
    decreases gs.len() - j,
{
    if j < 0 || j >= gs.len() {
        None
    } else if gs[j].0 == name {
        Some(j)
    } else {
        group_named(gs, name, j + 1)
    }
}

/// The groups that the parameters `params[..k]` form, in order of each
/// type's first use
pub open spec fn groups_upto(t: SyntaxTree, params: Seq<usize>, k: int) -> Seq<(Seq<char>, usize, Seq<Seq<char>>)>
    decreases k,
{
    if k <= 0 || k > params.len() {
        Seq::empty()
    } else {
        let g = groups_upto(t, params, k - 1);
        match entry_of(t, params[k - 1] as int) {
            None => g,
            Some(e) => match group_named(g, e.0, 0) {
                Some(j) => g.update(j, (g[j].0, g[j].1, g[j].2.push(e.2))),
                None => g.push((e.0, e.1, seq![e.2])),
            },
        }
    }
}

/// The advice for parameters that share a type
pub open spec fn repeated_message(names: Seq<Seq<char>>, type_label: Seq<char>) -> Seq<char> {
    "parameters "@ + joined_names(names) + " share type `"@ + type_label
        + "`; a caller can transpose them, so give each one a newtype"@
}

/// The diagnostics for the first `k` groups: one for each with two or more
/// parameters, at the type of its first parameter
pub open spec fn group_reports(t: SyntaxTree, gs: Seq<(Seq<char>, usize, Seq<Seq<char>>)>, k: int) -> Seq<(Seq<char>, Seq<char>, usize, usize)>
    decreases k,
{
    if k <= 0 || k > gs.len() {
        Seq::empty()
    } else {
        let p = group_reports(t, gs, k - 1);
        let g = gs[k - 1];
        if g.2.len() < 2 {
            p
        } else {
            p.push(
                (
                    repeated_rule(),
                    repeated_message(g.2, g.0),
                    t.node_at(g.1 as int).start,
                    t.node_at(g.1 as int).end,
                ),
            )
        }
    }
}

/// What the rule reports for the signature at node `i`
pub open spec fn signature_spec(t: SyntaxTree, i: int, boundary: Seq<Seq<char>>) -> Seq<(Seq<char>, Seq<char>, usize, usize)> {
    if crosses_spec(t, i, boundary) {
        Seq::empty()
    } else {
        match field_child(t, i, "parameters"@) {
            None => Seq::empty(),
            Some(ps) => {
                let params = named_children_of(t, ps as int);
                let gs = groups_upto(t, params, params.len() as int);
                group_reports(t, gs, gs.len() as int)
            },
        }
    }
}

fn parameter_entry<'a>(t: &'a SyntaxTree, p: usize) -> (r: Option<(String, usize, &'a str)>)
    requires
        t.valid(),
        p < t.size(),
    ensures
        match r {
            Some(e) => entry_of(*t, p as int) == Some((e.0@, e.1, e.2@)) && e.1 < t.size(),
            None => entry_of(*t, p as int) is None,
        },
{
    if !kind_is(t, p, "parameter") {
        return None;
    }
    let ty = match child_by_field_name(t, p, "type") {
        Some(c) => c,
        None => return None,
    };
    let name = match primitive_type_name(t, ty) {
        Some(s) => s,
        None => return None,
    };
    let pat = match child_by_field_name(t, p, "pattern") {
        Some(c) => c,
        None => return None,
    };
    Some((name, ty, t.node(pat).text.as_str()))
}

/// Reports every primitive type that the signature at `node` uses more than
/// once
///
/// The rule skips a signature on a boundary. The diagnostic points at the
/// type of the first parameter in the group, so two repeated types give two
/// diagnostics at two places.
pub fn check_signature(t: &SyntaxTree, node: usize, boundary: &[String]) -> (r: Vec<Diagnostic>)
    requires
        t.valid(),
        node < t.size(),
    ensures
        all_under(diag_views(r@), "lint.repeated-primitive-params"@),
        diag_views(r@) == signature_spec(*t, node as int, name_views(boundary@)),
{
    if crosses_a_boundary(t, node, boundary) {
        return Vec::new();
    }
    let parameters = match child_by_field_name(t, node, "parameters") {
        Some(c) => c,
        None => return Vec::new(),
    };
    let params = named_children(t, parameters);
    let mut groups: Vec<ParameterGroup> = Vec::new();
    let mut k: usize = 0;
    while k < params.len()
        invariant
            t.valid(),
            params@ == named_children_of(*t, parameters as int),
            forall|m: int| 0 <= m < params@.len() ==> #[trigger] params@[m] < t.size(),
            k <= params@.len(),
            group_views(groups@) == groups_upto(*t, params@, k as int),
            forall|m: int| 0 <= m < groups@.len() ==> #[trigger] groups@[m].type_node < t.size(),
        decreases params@.len() - k,
    {
        let ghost g = group_views(groups@);
        match parameter_entry(t, params[k]) {
            None => {},
            Some((name, ty, pat)) => {
                let mut j: usize = 0;
                while j < groups.len() && !text_is(groups[j].type_label.as_str(), name.as_str())
                    invariant
                        j <= groups@.len(),
                        g == group_views(groups@),
                        group_named(g, name@, j as int) == group_named(g, name@, 0),
                    decreases groups@.len() - j,
                {
                    j += 1;
                }
                if j < groups.len() {
                    let mut taken = ParameterGroup { type_label: String::new(), type_node: 0, parameter_names: Vec::new() };
                    let ghost old_group = groups@[j as int];
                    std::mem::swap(&mut taken, &mut groups[j]);
                    assert(taken == old_group);
                    taken.parameter_names.push(pat);
                    assert(str_views(taken.parameter_names@) =~= str_views(old_group.parameter_names@).push(pat@));
                    groups.set(j, taken);
                    assert(group_views(groups@) =~= g.update(j as int, (g[j as int].0, g[j as int].1, g[j as int].2.push(pat@))));
                } else {
                    let mut names: Vec<&str> = Vec::new();
                    names.push(pat);
                    let ghost before = groups@;
                    groups.push(ParameterGroup { type_label: name, type_node: ty, parameter_names: names });
                    assert(str_views(names@) =~= seq![pat@]);
                    assert(group_views(groups@) =~= g.push((name@, ty, seq![pat@])));
                }
            },
        }
        k += 1;
    }
    let ghost gs = group_views(groups@);
    let mut diagnostics: Vec<Diagnostic> = Vec::new();
    let mut j: usize = 0;
    while j < groups.len()
        invariant
            gs == group_views(groups@),
            forall|m: int| 0 <= m < groups@.len() ==> #[trigger] groups@[m].type_node < t.size(),
            j <= groups@.len(),
            diag_views(diagnostics@) == group_reports(*t, gs, j as int),
            all_under(diag_views(diagnostics@), "lint.repeated-primitive-params"@),
        decreases groups@.len() - j,
    {
        let group = &groups[j];
        let ghost before = diag_views(diagnostics@);
        if group.parameter_names.len() >= 2 {
            let mut message = String::new();
            append(&mut message, "parameters ");
            let joined = join_names(group.parameter_names.as_slice());
            append(&mut message, joined.as_str());
            append(&mut message, " share type `");
            append(&mut message, group.type_label.as_str());
            append(&mut message, "`; a caller can transpose them, so give each one a newtype");
            let ty = t.node(group.type_node);
            let d = Diagnostic::new("lint.repeated-primitive-params", message, ty.start, ty.end);
            diagnostics.push(d);
            assert(diag_views(diagnostics@) =~= before.push(diag_view(d)));
            assert(diag_views(diagnostics@)[diag_views(diagnostics@).len() - 1] == diag_view(d));
        }
        j += 1;
    }
    diagnostics
}

impl RepeatedPrimitiveParams {
    /// The attribute macros that this pass treats as a boundary
    pub closed spec fn boundary_view(&self) -> Seq<Seq<char>> {
        name_views(self.boundary_attributes@)
    }

    /// Creates a pass with no boundary attributes, which reports every
    /// signature that `extern` does not already excuse
    pub fn new() -> (r: Self)
        ensures
            r.boundary_view() == Seq::<Seq<char>>::empty(),
    {
        RepeatedPrimitiveParams { boundary_attributes: Vec::new() }
    }

    /// Sets the attribute macros that mark a boundary, as the
    /// `boundary-attributes` option names them; [`None`] clears them
    pub fn configure(&mut self, boundary_attributes: Option<Vec<String>>)
        ensures
            final(self).boundary_view() == match boundary_attributes {
                Some(v) => name_views(v@),
                None => Seq::<Seq<char>>::empty(),
            },
    {
        self.boundary_attributes = match boundary_attributes {
            Some(v) => v,
            None => Vec::new(),
        };
    }

    /// Checks a function with a body
    pub fn check_function_item(&self, t: &SyntaxTree, node: usize) -> (r: Vec<Diagnostic>)
        requires
            t.valid(),
            node < t.size(),
        ensures
            all_under(diag_views(r@), "lint.repeated-primitive-params"@),
            diag_views(r@) == signature_spec(*t, node as int, self.boundary_view()),
    {
        check_signature(t, node, self.boundary_attributes.as_slice())
    }

    /// Checks a function declared without a body
    pub fn check_function_signature_item(&self, t: &SyntaxTree, node: usize) -> (r: Vec<Diagnostic>)
        requires
            t.valid(),
            node < t.size(),
        ensures
            all_under(diag_views(r@), "lint.repeated-primitive-params"@),
            diag_views(r@) == signature_spec(*t, node as int, self.boundary_view()),
    {
        check_signature(t, node, self.boundary_attributes.as_slice())
    }
}

} // verus!
