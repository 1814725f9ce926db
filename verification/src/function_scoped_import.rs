//! Flags `use` declarations inside function bodies
//!
//! An import in a function body hides what the module depends on. A `cfg`
//! gate on the import or on an enclosing item silences the rule, because the
//! narrow scope is then deliberate. The rule also spares an import whose
//! qualifier resolves to an enum, because a variant import belongs beside
//! the match that uses it.
use vstd::prelude::*;

use crate::decorations::{Decorations, ImportSource};
use crate::diagnostic::{all_under, diag_view, diag_views, Diagnostic};
use crate::syntax::{
    first_position, kind_is, kind_of, named_child, named_child_spec, named_children, named_children_of, text_of,
    SyntaxTree,
};
use crate::text::text_is;

verus! {

/// Flags imports that sit inside a function body
pub struct FunctionScopedImport;

/// Whether node `i` sits in a block rather than at module level: the walk
/// up stops at the nearest block, module body, or file
pub open spec fn inside_block(t: SyntaxTree, i: int) -> bool
    decreases i,
{
    match t.parent_of(i) {
        None => false,
        Some(p) => if p >= i || p < 0 {
            false
        } else if kind_of(t, p as int) == "block"@ {
            true
        } else if kind_of(t, p as int) == "declaration_list"@ || kind_of(t, p as int) == "source_file"@ {
            false
        } else {
            inside_block(t, p as int)
        },
    }
}

/// Whether the attribute item `n` names `cfg`: its first named child is the
/// attribute, whose first named child is the identifier `cfg`
pub open spec fn cfg_attribute(t: SyntaxTree, n: int) -> bool {
    match named_child_spec(t, n, 0) {
        None => false,
        Some(a) => match named_child_spec(t, a as int, 0) {
            None => false,
            Some(p) => kind_of(t, p as int) == "identifier"@ && text_of(t, p as int) == "cfg"@,
        },
    }
}

/// Whether a node kind is a comment
pub open spec fn comment_kind(kind: Seq<char>) -> bool {
    kind == "line_comment"@ || kind == "block_comment"@
}

/// Whether a `cfg` attribute stands among `sibs[..k]`, reading backward
/// over attributes and comments and stopping at anything else
pub open spec fn cfg_before(t: SyntaxTree, sibs: Seq<usize>, k: int) -> bool
    decreases k,
{
    if k <= 0 || k > sibs.len() {
        false
    } else if kind_of(t, sibs[k - 1] as int) == "attribute_item"@ {
        cfg_attribute(t, sibs[k - 1] as int) || cfg_before(t, sibs, k - 1)
    } else if comment_kind(kind_of(t, sibs[k - 1] as int)) {
        cfg_before(t, sibs, k - 1)
    } else {
        false
    }
}

/// Whether an inner `cfg` attribute stands among `kids[k..]`, reading
/// forward over inner attributes and comments and stopping at anything else
pub open spec fn cfg_inside(t: SyntaxTree, kids: Seq<usize>, k: int) -> bool
    decreases kids.len() - k,
{
    if k < 0 || k >= kids.len() {
        false
    } else if kind_of(t, kids[k] as int) == "inner_attribute_item"@ {
        cfg_attribute(t, kids[k] as int) || cfg_inside(t, kids, k + 1)
    } else if comment_kind(kind_of(t, kids[k] as int)) {
        cfg_inside(t, kids, k + 1)
    } else {
        false
    }
}

/// Whether a `cfg` attribute precedes node `n` among its parent's named
/// children
pub open spec fn cfg_in_front(t: SyntaxTree, n: int) -> bool {
    match t.parent_of(n) {
        None => false,
        Some(p) => {
            let sibs = named_children_of(t, p as int);
            match first_position(sibs, n as usize, 0) {
                None => false,
                Some(ix) => cfg_before(t, sibs, ix),
            }
        },
    }
}

/// Whether node `i` or an enclosing node carries a `cfg` attribute, in
/// front of itself or as an inner attribute
pub open spec fn cfg_gated(t: SyntaxTree, i: int) -> bool
    decreases i,
{
    if cfg_in_front(t, i) || cfg_inside(t, named_children_of(t, i), 0) {
        true
    } else {
        match t.parent_of(i) {
            None => false,
            Some(p) => 0 <= p < i && cfg_gated(t, p as int),
        }
    }
}

/// What the rule reports of the `use_declaration` node `node`
pub open spec fn import_findings(t: SyntaxTree, d: Decorations, node: int) -> Seq<
    (Seq<char>, Seq<char>, usize, usize),
> {
    if !inside_block(t, node) || d.import_of(node as usize) == Some(ImportSource::Enum) || cfg_gated(
        t,
        node,
    ) {
        Seq::empty()
    } else {
        seq![
            (
                "lint.function-scoped-import"@,
                "`use` sits inside a function body; move it to the top of the module"@,
                t.node_at(node).start,
                t.node_at(node).end,
            ),
        ]
    }
}

/// Returns whether the node sits in a block rather than at module level
///
/// The walk stops at the nearest scope, so a `use` at the top of a module
/// nested in a function counts as module level.
pub fn is_inside_block(t: &SyntaxTree, node: usize) -> (r: bool)
    requires
        t.valid(),
        node < t.size(),
    ensures
        r == inside_block(*t, node as int),
{
    let mut current = node;
    loop
        invariant
            t.valid(),
            current < t.size(),
            inside_block(*t, node as int) == inside_block(*t, current as int),
        decreases current,
    {
        let p = match t.parent(current) {
            Some(p) => p,
            None => return false,
        };
        if kind_is(t, p, "block") {
            return true;
        }
        if kind_is(t, p, "declaration_list") || kind_is(t, p, "source_file") {
            return false;
        }
        current = p;
    }
}

/// Returns whether an attribute item names `cfg`
///
/// An `attribute_item` and an `inner_attribute_item` both hold the attribute
/// as their first named child, so one check serves either. `cfg_attr` does
/// not count, because it applies another attribute instead of removing the
/// item.
pub fn is_cfg_attribute(t: &SyntaxTree, n: usize) -> (r: bool)
    requires
        t.valid(),
        n < t.size(),
    ensures
        r == cfg_attribute(*t, n as int),
{
    let a = match named_child(t, n, 0) {
        Some(a) => a,
        None => return false,
    };
    let p = match named_child(t, a, 0) {
        Some(p) => p,
        None => return false,
    };
    kind_is(t, p, "identifier") && text_is(t.node(p).text.as_str(), "cfg")
}

fn is_comment(t: &SyntaxTree, n: usize) -> (r: bool)
    requires
        n < t.size(),
    ensures
        r == comment_kind(kind_of(*t, n as int)),
{
    kind_is(t, n, "line_comment") || kind_is(t, n, "block_comment")
}

/// Returns whether a `cfg` attribute precedes the node
///
/// Tree-sitter makes each attribute a sibling of the item it decorates. The
/// search reads backward from the node over attributes and comments, and
/// stops at the first sibling that is neither.
pub fn has_cfg_attribute(t: &SyntaxTree, node: usize) -> (r: bool)
    requires
        t.valid(),
        node < t.size(),
    ensures
        r == cfg_in_front(*t, node as int),
{
    let parent = match t.parent(node) {
        Some(p) => p,
        None => return false,
    };
    let siblings = named_children(t, parent);
    let mut index: usize = 0;
    while index < siblings.len() && siblings[index] != node
        invariant
            index <= siblings@.len(),
            first_position(siblings@, node, 0) == first_position(siblings@, node, index as int),
        decreases siblings@.len() - index,
    {
        index += 1;
    }
    if index == siblings.len() {
        return false;
    }
    assert(first_position(siblings@, node, 0) == Some(index as int));
    let mut k = index;
    while k > 0
        invariant
            t.valid(),
            t.parent_of(node as int) == Some(parent),
            siblings@ == named_children_of(*t, parent as int),
            first_position(siblings@, node, 0) == Some(index as int),
            k <= index < siblings@.len(),
            forall|j: int| 0 <= j < siblings@.len() ==> #[trigger] siblings@[j] < t.size(),
            cfg_before(*t, siblings@, index as int) == cfg_before(*t, siblings@, k as int),
        decreases k,
    {
        let s = siblings[k - 1];
        if kind_is(t, s, "attribute_item") {
            if is_cfg_attribute(t, s) {
                return true;
            }
        } else if !is_comment(t, s) {
            return false;
        }
        k -= 1;
    }
    false
}

/// Returns whether a `cfg` attribute opens the node's own children
///
/// A file and a module body gate everything under them with `#![cfg(..)]`,
/// which tree-sitter puts inside the `source_file` or the
/// `declaration_list` rather than in front of the item. The search stops at
/// the first child that is neither an inner attribute nor a comment.
pub fn has_inner_cfg_attribute(t: &SyntaxTree, node: usize) -> (r: bool)
    requires
        t.valid(),
        node < t.size(),
    ensures
        r == cfg_inside(*t, named_children_of(*t, node as int), 0),
{
    let kids = named_children(t, node);
    let mut k: usize = 0;
    while k < kids.len()
        invariant
            t.valid(),
            k <= kids@.len(),
            kids@ == named_children_of(*t, node as int),
            forall|j: int| 0 <= j < kids@.len() ==> #[trigger] kids@[j] < t.size(),
            cfg_inside(*t, kids@, 0) == cfg_inside(*t, kids@, k as int),
        decreases kids@.len() - k,
    {
        let c = kids[k];
        if kind_is(t, c, "inner_attribute_item") {
            if is_cfg_attribute(t, c) {
                return true;
            }
        } else if !is_comment(t, c) {
            return false;
        }
        k += 1;
    }
    false
}

/// Returns whether the node or an enclosing item carries a `cfg` attribute
///
/// An item writes its gate in front of itself, and a module or a file
/// writes it inside, so both spellings count at every level of the walk.
pub fn is_cfg_gated(t: &SyntaxTree, node: usize) -> (r: bool)
    requires
        t.valid(),
        node < t.size(),
    ensures
        r == cfg_gated(*t, node as int),
{
    let mut current = node;
    loop
        invariant
            t.valid(),
            current < t.size(),
            cfg_gated(*t, node as int) == cfg_gated(*t, current as int),
        decreases current,
    {
        if has_cfg_attribute(t, current) || has_inner_cfg_attribute(t, current) {
            return true;
        }
        match t.parent(current) {
            Some(p) => current = p,
            None => return false,
        }
    }
}

/// Returns whether the import names variants of an enum
///
/// Only the resolution recorded in `d` answers this; a capitalized
/// qualifier proves nothing on its own. An import with no recorded
/// resolution keeps the diagnostic, because the exemption needs proof.
fn imports_enum_variants(d: &Decorations, node: usize) -> (r: bool)
    ensures
        r == (d.import_of(node) == Some(ImportSource::Enum)),
{
    match d.import_source(node) {
        Some(ImportSource::Enum) => true,
        Some(ImportSource::Module) => false,
        Some(ImportSource::Other) => false,
        Some(ImportSource::Unresolved) => false,
        None => false,
    }
}

impl FunctionScopedImport {
    /// Checks one `use_declaration`: an import inside a block gets a warning
    /// unless it imports enum variants or a `cfg` gate narrows it
    pub fn check_use_declaration(&self, t: &SyntaxTree, d: &Decorations, node: usize) -> (r: Vec<
        Diagnostic,
    >)
        requires
            t.valid(),
            node < t.size(),
        ensures
            all_under(diag_views(r@), "lint.function-scoped-import"@),
            diag_views(r@) == import_findings(*t, *d, node as int),
    {
        let mut out: Vec<Diagnostic> = Vec::new();
        assert(diag_views(out@) =~= Seq::empty());
        if !is_inside_block(t, node) {
            return out;
        }
        if imports_enum_variants(d, node) {
            return out;
        }
        if is_cfg_gated(t, node) {
            return out;
        }
        let n = t.node(node);
        let diagnostic = Diagnostic::new(
            "lint.function-scoped-import",
            "`use` sits inside a function body; move it to the top of the module".to_owned(),
            n.start,
            n.end,
        );
        out.push(diagnostic);
        assert(diag_views(out@) =~= seq![diag_view(diagnostic)]);
        out
    }
}

} // verus!
