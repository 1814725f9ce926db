//! Whether a signature sits on a boundary that fixes it
//!
//! Two rules act on this question, `lint.repeated-primitive-params` and
//! `lint.bool-param`, under one option a project sets once, so they ask it
//! here.
use vstd::prelude::*;

use crate::syntax::{kind_is, kind_of, named_children, named_children_of, text_of, SyntaxTree};
use crate::text::{after_last_path_sep, after_last_path_sep_at, chars_of, ranges_equal, trim, trim_at};

verus! {

broadcast use vstd::seq_lib::group_seq_properties;

/// The option both rules read to learn which attributes mark a boundary
pub const OPTION: &'static str = "boundary-attributes";

/// The views of a list of names
pub open spec fn name_views(names: Seq<String>) -> Seq<Seq<char>> {
    names.map_values(|s: String| s@)
}

/// Whether some named child of node `i` has the kind `kind`
pub open spec fn some_named_kind(t: SyntaxTree, i: int, kind: Seq<char>) -> bool {
    exists|k: int|
        0 <= k < named_children_of(t, i).len() && #[trigger] kind_of(
            t,
            named_children_of(t, i)[k] as int,
        ) == kind
}

/// Whether the signature at node `i` declares an `extern` ABI
pub open spec fn extern_abi(t: SyntaxTree, i: int) -> bool {
    exists|k: int|
        0 <= k < named_children_of(t, i).len() && kind_of(t, named_children_of(t, i)[k] as int)
            == "function_modifiers"@ && #[trigger] some_named_kind(
            t,
            named_children_of(t, i)[k] as int,
            "extern_modifier"@,
        )
}

/// Whether the signature at node `i` sits in an `extern` block
pub open spec fn extern_block(t: SyntaxTree, i: int) -> bool {
    match t.parent_of(i) {
        Some(p) => match t.parent_of(p as int) {
            Some(g) => kind_of(t, g as int) == "foreign_mod_item"@,
            None => false,
        },
        None => false,
    }
}

/// The first named child of node `i`
pub open spec fn first_named(t: SyntaxTree, i: int) -> Option<usize> {
    if named_children_of(t, i).len() > 0 {
        Some(named_children_of(t, i)[0])
    } else {
        None
    }
}

/// The name an attribute path gives, without its leading segments
pub open spec fn attribute_name(path: Seq<char>) -> Seq<char> {
    trim(after_last_path_sep(path))
}

/// Whether `names` lists `name`
pub open spec fn listed(names: Seq<Seq<char>>, name: Seq<char>) -> bool {
    exists|j: int| 0 <= j < names.len() && #[trigger] names[j] == name
}

/// Whether a configured attribute sits among the siblings `sibs[..k]`,
/// walking back from `k` past attributes and comments only
pub open spec fn attribute_run(t: SyntaxTree, sibs: Seq<usize>, k: int, names: Seq<Seq<char>>) -> bool
    decreases k,
{
    if k <= 0 || k > sibs.len() {
        false
    } else {
        let s = sibs[k - 1] as int;
        if kind_of(t, s) == "attribute_item"@ {
            match first_named(t, s) {
                None => attribute_run(t, sibs, k - 1, names),
                Some(a) => match first_named(t, a as int) {
                    None => attribute_run(t, sibs, k - 1, names),
                    Some(p) => listed(names, attribute_name(text_of(t, p as int)))
                        || attribute_run(t, sibs, k - 1, names),
                },
            }
        } else if kind_of(t, s) == "line_comment"@ || kind_of(t, s) == "block_comment"@ {
            attribute_run(t, sibs, k - 1, names)
        } else {
            false
        }
    }
}

/// The first position of `x` in `s` from `k` on
pub open spec fn position_from(s: Seq<usize>, x: usize, k: int) -> Option<int>
    decreases s.len() - k,
{
    if k < 0 || k >= s.len() {
        None
    } else if s[k] == x {
        Some(k)
    } else {
        position_from(s, x, k + 1)
    }
}

/// Whether an attribute on the signature at node `i` is one of `names`
pub open spec fn carries_attribute(t: SyntaxTree, i: int, names: Seq<Seq<char>>) -> bool {
    if names.len() == 0 {
        false
    } else {
        match t.parent_of(i) {
            None => false,
            Some(p) => {
                let sibs = named_children_of(t, p as int);
                match position_from(sibs, i as usize, 0) {
                    None => false,
                    Some(pos) => attribute_run(t, sibs, pos, names),
                }
            },
        }
    }
}

/// Whether the signature at node `i` sits on a boundary that fixes it
pub open spec fn crosses_spec(t: SyntaxTree, i: int, names: Seq<Seq<char>>) -> bool {
    extern_abi(t, i) || extern_block(t, i) || carries_attribute(t, i, names)
}

/// Returns whether some named child of node `i` has the kind `kind`
pub fn has_named_child_of_kind(t: &SyntaxTree, i: usize, kind: &str) -> (r: bool)
    requires
        t.valid(),
        i < t.size(),
    ensures
        r == some_named_kind(*t, i as int, kind@),
{
    let kids = named_children(t, i);
    let mut k: usize = 0;
    while k < kids.len()
        invariant
            t.valid(),
            kids@ == named_children_of(*t, i as int),
            forall|m: int| 0 <= m < kids@.len() ==> #[trigger] kids@[m] < t.size(),
            k <= kids@.len(),
            forall|m: int| 0 <= m < k ==> #[trigger] kind_of(*t, kids@[m] as int) != kind@,
        decreases kids@.len() - k,
    {
        if kind_is(t, kids[k], kind) {
            assert(kind_of(*t, named_children_of(*t, i as int)[k as int] as int) == kind@);
            return true;
        }
        k += 1;
    }
    false
}

fn has_extern_abi(t: &SyntaxTree, i: usize) -> (r: bool)
    requires
        t.valid(),
        i < t.size(),
    ensures
        r == extern_abi(*t, i as int),
{
    let kids = named_children(t, i);
    let mut k: usize = 0;
    while k < kids.len()
        invariant
            t.valid(),
            kids@ == named_children_of(*t, i as int),
            forall|m: int| 0 <= m < kids@.len() ==> #[trigger] kids@[m] < t.size(),
            k <= kids@.len(),
            forall|m: int|
                0 <= m < k ==> !(kind_of(*t, kids@[m] as int) == "function_modifiers"@
                    && #[trigger] some_named_kind(*t, kids@[m] as int, "extern_modifier"@)),
        decreases kids@.len() - k,
    {
        let c = kids[k];
        if kind_is(t, c, "function_modifiers") && has_named_child_of_kind(t, c, "extern_modifier") {
            return true;
        }
        k += 1;
    }
    false
}

fn first_named_child(t: &SyntaxTree, i: usize) -> (r: Option<usize>)
    requires
        t.valid(),
        i < t.size(),
    ensures
        r == first_named(*t, i as int),
        match r {
            Some(c) => c < t.size(),
            None => true,
        },
{
    let kids = named_children(t, i);
    if kids.len() > 0 {
        Some(kids[0])
    } else {
        None
    }
}

fn is_listed(names: &[String], s: &[char], a: usize, b: usize) -> (r: bool)
    requires
        a <= b <= s@.len(),
    ensures
        r == listed(name_views(names@), s@.subrange(a as int, b as int)),
{
    let mut j: usize = 0;
    while j < names.len()
        invariant
            a <= b <= s@.len(),
            j <= names@.len(),
            forall|m: int| 0 <= m < j ==> #[trigger] names@[m]@ != s@.subrange(a as int, b as int),
        decreases names@.len() - j,
    {
        let c = chars_of(names[j].as_str());
        if ranges_equal(c.as_slice(), 0, c.len(), s, a, b) {
            assert(c@.subrange(0, c@.len() as int) =~= c@);
            assert(name_views(names@)[j as int] == s@.subrange(a as int, b as int));
            return true;
        }
        assert(c@.subrange(0, c@.len() as int) =~= c@);
        j += 1;
    }
    false
}

#[verifier::loop_isolation(false)]
fn carries_a_boundary_attribute(t: &SyntaxTree, i: usize, names: &[String]) -> (r: bool)
    requires
        t.valid(),
        i < t.size(),
    ensures
        r == carries_attribute(*t, i as int, name_views(names@)),
{
    if names.len() == 0 {
        return false;
    }
    let parent = match t.parent(i) {
        Some(p) => p,
        None => return false,
    };
    let sibs = named_children(t, parent);
    let mut pos: usize = 0;
    while pos < sibs.len() && sibs[pos] != i
        invariant
            pos <= sibs@.len(),
            position_from(sibs@, i, pos as int) == position_from(sibs@, i, 0),
        decreases sibs@.len() - pos,
    {
        pos += 1;
    }
    if pos == sibs.len() {
        return false;
    }
    let mut k = pos;
    while k > 0
        invariant
            t.valid(),
            sibs@ == named_children_of(*t, parent as int),
            forall|m: int| 0 <= m < sibs@.len() ==> #[trigger] sibs@[m] < t.size(),
            k <= pos < sibs@.len(),
            attribute_run(*t, sibs@, pos as int, name_views(names@)) == attribute_run(
                *t,
                sibs@,
                k as int,
                name_views(names@),
            ),
        decreases k,
    {
        let s = sibs[k - 1];
        if kind_is(t, s, "attribute_item") {
            match first_named_child(t, s) {
                None => {},
                Some(a) => match first_named_child(t, a) {
                    None => {},
                    Some(p) => {
                        let text = chars_of(t.node(p).text.as_str());
                        let n = text.len();
                        assert(text@.subrange(0, n as int) =~= text@);
                        let x = after_last_path_sep_at(text.as_slice(), 0, n);
                        let (u, v) = trim_at(text.as_slice(), x, n);
                        if is_listed(names, text.as_slice(), u, v) {
                            return true;
                        }
                    },
                },
            }
        } else if kind_is(t, s, "line_comment") || kind_is(t, s, "block_comment") {
        } else {
            return false;
        }
        k -= 1;
    }
    false
}

/// Returns whether the signature at node `i` sits on a boundary that fixes it
///
/// A function in an `extern` block, or one with an `extern` ABI, must match a
/// signature that a caller outside Rust fixes. An attribute macro that
/// generates a bridge for such a caller does the same thing, and a project
/// names those in [`OPTION`]; `attributes` holds what it named. A configured
/// name matches the last segment of the attribute's path, and the walk back
/// from the signature passes over attributes and comments only.
pub fn crosses_a_boundary(t: &SyntaxTree, i: usize, attributes: &[String]) -> (r: bool)
    requires
        t.valid(),
        i < t.size(),
    ensures
        r == crosses_spec(*t, i as int, name_views(attributes@)),
{
    if has_extern_abi(t, i) {
        return true;
    }
    let block = match t.parent(i) {
        Some(p) => match t.parent(p) {
            Some(g) => kind_is(t, g, "foreign_mod_item"),
            None => false,
        },
        None => false,
    };
    block || carries_a_boundary_attribute(t, i, attributes)
}

} // verus!
