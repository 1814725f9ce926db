//! Parsing Rust source into a [`SyntaxTree`]
//!
//! The grammar and the parser come from tree-sitter. The walk that copies
//! tree-sitter's nodes into the library's own tree is verified: whatever the
//! parser hands back, the tree it builds keeps every invariant of
//! [`SyntaxTree`].
use vstd::prelude::*;

use crate::syntax::{SyntaxNode, SyntaxTree};

verus! {

#[verifier::external_type_specification]
#[verifier::external_body]
pub struct ExParser(tree_sitter::Parser);

#[verifier::external_type_specification]
#[verifier::external_body]
pub struct ExTree(tree_sitter::Tree);

#[verifier::external_type_specification]
#[verifier::external_body]
pub struct ExNode<'a>(tree_sitter::Node<'a>);

/// Calls `tree_sitter::Parser::new`, which makes a parser with no language
#[verifier::external_body]
fn new_parser() -> tree_sitter::Parser {
    tree_sitter::Parser::new()
}

/// Calls `tree_sitter::Parser::set_language` with the Rust grammar of
/// `tree_sitter_rust`; the result says whether the grammar's version was
/// accepted
#[verifier::external_body]
fn set_rust_language(parser: &mut tree_sitter::Parser) -> bool {
    parser.set_language(&tree_sitter_rust::LANGUAGE.into()).is_ok()
}

/// Calls `tree_sitter::Parser::parse`, which returns [`None`] when the parser
/// has no language
#[verifier::external_body]
fn parse_text(parser: &mut tree_sitter::Parser, source: &str) -> Option<tree_sitter::Tree> {
    parser.parse(source, None)
}

/// Calls `tree_sitter::Tree::root_node`
#[verifier::external_body]
fn root_of<'a>(tree: &'a tree_sitter::Tree) -> tree_sitter::Node<'a> {
    tree.root_node()
}

/// Calls `tree_sitter::Node::descendant_count`, the number of nodes in the
/// subtree, the node itself included
#[verifier::external_body]
fn descendant_count(node: &tree_sitter::Node) -> usize {
    node.descendant_count()
}

/// Calls `tree_sitter::Node::kind`
#[verifier::external_body]
fn node_kind(node: &tree_sitter::Node) -> &'static str {
    node.kind()
}

/// Calls `tree_sitter::Node::is_named`
#[verifier::external_body]
fn node_is_named(node: &tree_sitter::Node) -> bool {
    node.is_named()
}

/// Calls `tree_sitter::Node::start_position` and takes its row
#[verifier::external_body]
fn node_start_row(node: &tree_sitter::Node) -> usize {
    node.start_position().row
}

/// Calls `tree_sitter::Node::end_position` and takes its row
#[verifier::external_body]
fn node_end_row(node: &tree_sitter::Node) -> usize {
    node.end_position().row
}

/// Calls `tree_sitter::Node::child_count`
#[verifier::external_body]
fn node_child_count(node: &tree_sitter::Node) -> usize {
    node.child_count()
}

/// Calls `tree_sitter::Node::child`
#[verifier::external_body]
fn node_child<'a>(node: &tree_sitter::Node<'a>, i: usize) -> Option<tree_sitter::Node<'a>> {
    node.child(i)
}

/// Calls `tree_sitter::Node::field_name_for_child`
#[verifier::external_body]
fn node_field_name(node: &tree_sitter::Node, i: u32) -> Option<&'static str> {
    node.field_name_for_child(i)
}

/// Whether `t` is the text of the bytes `a..b` of `source`'s UTF-8
/// encoding
pub open spec fn slice_of_source(source: Seq<char>, a: int, b: int, t: Seq<char>) -> bool {
    &&& 0 <= a <= b <= vstd::utf8::encode_utf8(source).len()
    &&& vstd::utf8::encode_utf8(t) == vstd::utf8::encode_utf8(source).subrange(a, b)
}

/// Takes the text of `node` out of `source`, as `tree_sitter::Node::utf8_text`
/// does: the bytes from `tree_sitter::Node::start_byte` to
/// `tree_sitter::Node::end_byte`, read with `str::get`, returned with the
/// two offsets
///
/// `str::get` gives the text of exactly those bytes, or [`None`] where the
/// range lies beyond `source` or splits a character; there `utf8_text`
/// would panic or fail. What the two offsets are rests on tree-sitter and
/// is not stated.
#[verifier::external_body]
fn node_text<'s>(node: &tree_sitter::Node, source: &'s str) -> (r: Option<(usize, usize, &'s str)>)
    ensures
        match r {
            Some((a, b, t)) => slice_of_source(source@, a as int, b as int, t@),
            None => true,
        },
{
    let (a, b) = (node.start_byte(), node.end_byte());
    match source.get(a..b) {
        Some(t) => Some((a, b, t)),
        None => None,
    }
}

/// Whether every node of `t` holds the text of its own byte range of
/// `source`
pub open spec fn texts_from(t: SyntaxTree, source: Seq<char>) -> bool {
    forall|i: int|
        0 <= i < t.size() ==> slice_of_source(
            source,
            (#[trigger] t.node_at(i)).start as int,
            t.node_at(i).end as int,
            t.node_at(i).text@,
        )
}

/// Whether `t` has one root, at index 0: every other node has a parent
pub open spec fn single_root(t: SyntaxTree) -> bool {
    &&& t.size() > 0 ==> t.parent_of(0) is None
    &&& forall|i: int| 0 < i < t.size() ==> (#[trigger] t.parent_of(i)) is Some
}

/// Whether the field a node records is the field name `field`
pub open spec fn same_field(recorded: Option<String>, field: Option<&str>) -> bool {
    match (recorded, field) {
        (Some(a), Some(b)) => a@ == b@,
        (None, None) => true,
        _ => false,
    }
}

/// Copies one tree-sitter node, under `parent`, into `out`
///
/// The node is appended as the last node, under `parent`, with the field
/// `field` and with the text of its own byte range of `source`; or, when its
/// range is not a piece of `source` or the tree refuses it, the tree stays
/// as it was. A `parent` that names no node is always refused. Whether any
/// other node is refused rests on the byte range tree-sitter reports for it.
fn copy_node(
    out: &mut SyntaxTree,
    node: &tree_sitter::Node,
    parent: Option<usize>,
    field: Option<&str>,
    source: &str,
) -> (r: Option<usize>)
    requires
        old(out).valid(),
    ensures
        final(out).valid(),
        match r {
            Some(i) => {
                &&& i == old(out).size()
                &&& final(out).size() == old(out).size() + 1
                &&& final(out).parent_of(i as int) == parent
                &&& same_field(final(out).node_at(i as int).field, field)
                &&& slice_of_source(
                    source@,
                    final(out).node_at(i as int).start as int,
                    final(out).node_at(i as int).end as int,
                    final(out).node_at(i as int).text@,
                )
                &&& forall|j: int|
                    0 <= j < old(out).size() ==> #[trigger] final(out).node_at(j) == old(out).node_at(j)
                &&& forall|j: int|
                    0 <= j < old(out).size() ==> #[trigger] final(out).parent_of(j) == old(out).parent_of(j)
            },
            None => *final(out) == *old(out),
        },
        match parent {
            Some(p) => p >= old(out).size() ==> r is None,
            None => true,
        },
{
    let ghost fv = field;
    let (start, end, text) = match node_text(node, source) {
        Some((a, b, t)) => (a, b, t.to_owned()),
        None => return None,
    };
    let field = match field {
        Some(f) => Some(f.to_owned()),
        None => None,
    };
    let data = SyntaxNode {
        kind: node_kind(node).to_owned(),
        field,
        named: node_is_named(node),
        start,
        end,
        start_row: node_start_row(node),
        end_row: node_end_row(node),
        text,
    };
    assert(same_field(data.field, fv));
    let ghost before = *out;
    let r = out.push(parent, data);
    proof {
        if r is Some {
            assert forall|j: int| 0 <= j < before.size() implies #[trigger] out.parent_of(j) == before.parent_of(j) by {
                assert(out.node_at(j) == before.node_at(j));
            }
        }
    }
    r
}

/// Calls `tree_sitter::Node::has_error`, which says whether the subtree
/// holds a syntax error or a node the parser made up to recover
#[verifier::external_body]
fn node_has_error(node: &tree_sitter::Node) -> bool {
    node.has_error()
}

/// Copies the tree under `root` into a [`SyntaxTree`]
///
/// Every node is copied, named or not, with the field it fills in its
/// parent; a node whose byte range does not match its text is left out with
/// its subtree.
fn copy_tree(root: tree_sitter::Node, source: &str) -> (r: SyntaxTree)
    ensures
        r.valid(),
        single_root(r),
        texts_from(r, source@),
{
    let mut fuel = descendant_count(&root);
    let mut out = SyntaxTree::new();
    let mut stack: Vec<(tree_sitter::Node, Option<usize>, Option<&str>)> = Vec::new();
    stack.push((root, None, None));
    while fuel > 0 && stack.len() > 0
        invariant
            out.valid(),
            single_root(out),
            texts_from(out, source@),
            forall|j: int| 0 <= j < stack@.len() ==> (#[trigger] stack@[j]).1 is None ==> out.size() == 0 && stack@.len() == 1,
            forall|j: int| 0 <= j < stack@.len() ==> match (#[trigger] stack@[j]).1 {
                Some(p) => p < out.size(),
                None => true,
            },
        decreases fuel,
    {
        fuel -= 1;
        let (node, parent, field) = match stack.pop() {
            Some(entry) => entry,
            None => break,
        };
        let ghost before = out;
        proof {
            if parent is None {
                assert(before.size() == 0);
            }
        }
        let index = match copy_node(&mut out, &node, parent, field, source) {
            Some(i) => i,
            None => continue,
        };
        proof {
            assert forall|i: int| 0 < i < out.size() implies (#[trigger] out.parent_of(i)) is Some by {
                if i < before.size() {
                    assert(out.parent_of(i) == before.parent_of(i));
                }
            }
            if before.size() > 0 {
                assert(out.parent_of(0) == before.parent_of(0));
            }
            assert(stack@.len() == 0 || parent is Some);
        }
        let count = node_child_count(&node);
        let mut k = count;
        while k > 0
            invariant
                k <= count,
                index < out.size(),
                forall|j: int| 0 <= j < stack@.len() ==> (#[trigger] stack@[j]).1 is None ==> false,
                forall|j: int| 0 <= j < stack@.len() ==> match (#[trigger] stack@[j]).1 {
                    Some(p) => p < out.size(),
                    None => true,
                },
            decreases k,
        {
            k -= 1;
            if k <= u32::MAX as usize {
                match node_child(&node, k) {
                    Some(child) => {
                        let name = node_field_name(&node, k as u32);
                        stack.push((child, Some(index), name));
                    },
                    None => {},
                }
            }
        }
    }
    out
}

/// Parses Rust source text into a [`SyntaxTree`]
///
/// Returns [`None`] when tree-sitter refuses the grammar or yields no tree.
/// Every node of tree-sitter's tree is copied, named or not, with the field
/// it fills in its parent; a node whose byte range does not match its text
/// is left out with its subtree.
pub fn parse_rust(source: &str) -> (r: Option<SyntaxTree>)
    ensures
        match r {
            Some(t) => t.valid() && single_root(t) && texts_from(t, source@),
            None => true,
        },
{
    let mut parser = new_parser();
    if !set_rust_language(&mut parser) {
        return None;
    }
    let tree = match parse_text(&mut parser, source) {
        Some(t) => t,
        None => return None,
    };
    Some(copy_tree(root_of(&tree), source))
}

/// Parses Rust source text into a [`SyntaxTree`], or returns [`None`] when
/// the text does not parse cleanly: tree-sitter refuses the grammar, yields
/// no tree, or reports a syntax error in it
pub fn parse_rust_without_errors(source: &str) -> (r: Option<SyntaxTree>)
    ensures
        match r {
            Some(t) => t.valid() && single_root(t) && texts_from(t, source@),
            None => true,
        },
{
    let mut parser = new_parser();
    if !set_rust_language(&mut parser) {
        return None;
    }
    let tree = match parse_text(&mut parser, source) {
        Some(t) => t,
        None => return None,
    };
    let root = root_of(&tree);
    if node_has_error(&root) {
        return None;
    }
    Some(copy_tree(root, source))
}

} // verus!
