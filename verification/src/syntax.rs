//! A concrete syntax tree, held as plain values
//!
//! The rules read a parsed Rust file: node kinds, the field each child fills
//! in its parent, byte ranges, rows, and source text. The tree keeps every
//! node in one vector, parents before children, so that a walk down the tree
//! always moves to a higher index.
use vstd::prelude::*;

use crate::text::{chars_of, same_chars, utf8_size};

verus! {

broadcast use vstd::seq_lib::group_seq_properties;

/// One node of the tree, without its links to other nodes
#[derive(Clone, Debug)]
pub struct SyntaxNode {
    /// The grammar's name for the node, such as `let_declaration`
    pub kind: String,
    /// The field the node fills in its parent, such as `pattern`
    pub field: Option<String>,
    /// Whether the grammar names the node, as opposed to punctuation
    pub named: bool,
    /// The byte offset of the first byte of the node in the file
    pub start: usize,
    /// The byte offset just past the node in the file
    pub end: usize,
    /// The row the node starts on, counting from zero
    pub start_row: usize,
    /// The row the node ends on
    pub end_row: usize,
    /// The source text the node covers
    pub text: String,
}

/// The field name a node carries, as characters
pub open spec fn field_view(n: SyntaxNode) -> Option<Seq<char>> {
    match n.field {
        Some(f) => Some(f@),
        None => None,
    }
}

/// Whether a node's byte range is as long as the UTF-8 encoding of its text
pub open spec fn spans_text(n: SyntaxNode) -> bool {
    n.start <= n.end && n.end - n.start == utf8_size(n.text@)
}

/// Whether the byte range of `inner` lies inside that of `outer`
pub open spec fn within(inner: SyntaxNode, outer: SyntaxNode) -> bool {
    outer.start <= inner.start && inner.end <= outer.end
}

/// A whole tree: nodes in an order where each parent precedes its children
pub struct SyntaxTree {
    nodes: Vec<SyntaxNode>,
    parents: Vec<Option<usize>>,
    kids: Vec<Vec<usize>>,
}

/// Whether `push` accepts `node` under `parent`: the parent exists, the
/// node's range matches its text and lies inside the parent's range, it
/// starts no earlier than its elder siblings, the parent has room for one
/// more child under tree-sitter's limit, and one more node still fits
pub open spec fn fits(t: SyntaxTree, parent: Option<usize>, node: SyntaxNode) -> bool {
    &&& t.size() < usize::MAX
    &&& spans_text(node)
    &&& match parent {
        Some(p) => {
            &&& p < t.size()
            &&& within(node, t.node_at(p as int))
            &&& t.children_of(p as int).len() < 4294967295
            &&& (t.children_of(p as int).len() > 0 ==> t.node_at(t.children_of(p as int).last() as int).start <= node.start)
        },
        None => true,
    }
}

impl SyntaxTree {
    /// The number of nodes
    pub closed spec fn size(&self) -> nat {
        self.nodes@.len()
    }

    /// The node at index `i`
    pub closed spec fn node_at(&self, i: int) -> SyntaxNode {
        self.nodes@[i]
    }

    /// The parent of the node at index `i`
    pub closed spec fn parent_of(&self, i: int) -> Option<usize> {
        self.parents@[i]
    }

    /// The children of the node at index `i`, in source order
    pub closed spec fn children_of(&self, i: int) -> Seq<usize> {
        self.kids@[i]@
    }

    /// The facts that every tree keeps: each parent precedes its children,
    /// each child names its parent, and siblings keep source order
    pub closed spec fn valid(&self) -> bool {
        &&& self.parents@.len() == self.nodes@.len()
        &&& self.kids@.len() == self.nodes@.len()
        &&& forall|i: int|
            0 <= i < self.nodes@.len() ==> match #[trigger] self.parents@[i] {
                Some(p) => p < i,
                None => true,
            }
        &&& forall|i: int, k: int|
            0 <= i < self.nodes@.len() && 0 <= k < self.kids@[i]@.len() ==> i
                < #[trigger] self.kids@[i]@[k] < self.nodes@.len() && self.parents@[self.kids@[i]@[k] as int]
                == Some(i as usize)
        &&& forall|i: int, a: int, b: int|
            0 <= i < self.nodes@.len() && 0 <= a < b < self.kids@[i]@.len() ==> #[trigger] self.kids@[i]@[a]
                < #[trigger] self.kids@[i]@[b]
        &&& forall|i: int| 0 <= i < self.nodes@.len() ==> #[trigger] spans_text(self.nodes@[i])
        &&& forall|i: int| 0 <= i < self.nodes@.len() ==> #[trigger] self.kids@[i]@.len() <= 4294967295
        &&& forall|i: int, a: int, b: int|
            0 <= i < self.nodes@.len() && 0 <= a < b < self.kids@[i]@.len() ==> #[trigger] self.nodes@[self.kids@[i]@[a] as int].start
                <= #[trigger] self.nodes@[self.kids@[i]@[b] as int].start
        &&& forall|i: int|
            0 <= i < self.nodes@.len() ==> match #[trigger] self.parents@[i] {
                Some(p) => within(self.nodes@[i], self.nodes@[p as int]),
                None => true,
            }
    }

    /// Creates a tree with no nodes
    pub fn new() -> (r: Self)
        ensures
            r.valid(),
            r.size() == 0,
    {
        SyntaxTree { nodes: Vec::new(), parents: Vec::new(), kids: Vec::new() }
    }

    /// Adds `node` as the last child of `parent`, or as a root when `parent`
    /// is [`None`], and returns its index
    ///
    /// Returns [`None`] and leaves the tree alone when `parent` names no node.
    pub fn push(&mut self, parent: Option<usize>, node: SyntaxNode) -> (r: Option<usize>)
        requires
            old(self).valid(),
        ensures
            final(self).valid(),
            fits(*old(self), parent, node) ==> {
                &&& r == Some(old(self).size() as usize)
                &&& final(self).size() == old(self).size() + 1
                &&& final(self).node_at(old(self).size() as int) == node
                &&& final(self).parent_of(old(self).size() as int) == parent
                &&& final(self).children_of(old(self).size() as int) == Seq::<usize>::empty()
                &&& forall|i: int|
                    0 <= i < old(self).size() ==> #[trigger] final(self).node_at(i) == old(
                        self,
                    ).node_at(i) && final(self).parent_of(i) == old(self).parent_of(i)
                        && final(self).children_of(i) == (if parent == Some(i as usize) {
                        old(self).children_of(i).push(old(self).size() as usize)
                    } else {
                        old(self).children_of(i)
                    })
            },
            !fits(*old(self), parent, node) ==> r is None && *final(self) == *old(self),
    {
        let n = self.nodes.len();
        let tl = node.text.as_str().as_bytes().len();
        assert(tl == utf8_size(node.text@));
        if n == usize::MAX || node.start > node.end || node.end - node.start != tl {
            return None;
        }
        assert(spans_text(node));
        match parent {
            Some(p) => {
                if p >= n || node.start < self.nodes[p].start || node.end > self.nodes[p].end {
                    return None;
                }
                let count = self.kids[p].len();
                if count >= 4294967295 {
                    return None;
                }
                if count > 0 {
                    let last = self.kids[p][count - 1];
                    if self.nodes[last].start > node.start {
                        return None;
                    }
                }
            },
            None => {},
        }
        let ghost old_kids = self.kids@;
        self.nodes.push(node);
        self.parents.push(parent);
        match parent {
            Some(p) => {
                let mut list: Vec<usize> = Vec::new();
                std::mem::swap(&mut list, &mut self.kids[p]);
                list.push(n);
                self.kids.set(p, list);
            },
            None => {},
        }
        self.kids.push(Vec::new());
        assert(forall|i: int| 0 <= i < n && parent != Some(i as usize) ==> self.kids@[i] == old_kids[i]);
        assert(self.nodes@[n as int] == node);
        assert(spans_text(self.nodes@[n as int]));
        Some(n)
    }

    /// Returns the number of nodes
    pub fn len(&self) -> (r: usize)
        ensures
            r == self.size(),
    {
        self.nodes.len()
    }

    /// Returns the node at index `i`
    pub fn node(&self, i: usize) -> (r: &SyntaxNode)
        requires
            i < self.size(),
        ensures
            *r == self.node_at(i as int),
    {
        &self.nodes[i]
    }

    /// Returns the parent of the node at index `i`
    pub fn parent(&self, i: usize) -> (r: Option<usize>)
        requires
            self.valid(),
            i < self.size(),
        ensures
            r == self.parent_of(i as int),
            match r {
                Some(p) => p < i,
                None => true,
            },
    {
        self.parents[i]
    }

    /// Returns the children of the node at index `i`, in source order
    pub fn children(&self, i: usize) -> (r: &[usize])
        requires
            self.valid(),
            i < self.size(),
        ensures
            r@ == self.children_of(i as int),
            forall|k: int| 0 <= k < r@.len() ==> i < #[trigger] r@[k] < self.size(),
    {
        self.kids[i].as_slice()
    }

    /// The facts about the children of node `i` that every valid tree keeps
    pub proof fn lemma_children(&self, i: int)
        requires
            self.valid(),
            0 <= i < self.size(),
        ensures
            forall|k: int|
                0 <= k < self.children_of(i).len() ==> i < #[trigger] self.children_of(i)[k]
                    < self.size() && self.parent_of(self.children_of(i)[k] as int) == Some(
                    i as usize,
                ),
            forall|a: int, b: int|
                0 <= a < b < self.children_of(i).len() ==> #[trigger] self.children_of(i)[a]
                    < #[trigger] self.children_of(i)[b],
            forall|a: int, b: int|
                0 <= a < b < self.children_of(i).len() ==> #[trigger] self.node_at(self.children_of(i)[a] as int).start
                    <= #[trigger] self.node_at(self.children_of(i)[b] as int).start,
            self.children_of(i).len() <= 4294967295,
    {
    }

    /// The facts about the byte range of node `i` that every valid tree keeps
    pub proof fn lemma_ranges(&self, i: int)
        requires
            self.valid(),
            0 <= i < self.size(),
        ensures
            spans_text(self.node_at(i)),
            match self.parent_of(i) {
                Some(p) => within(self.node_at(i), self.node_at(p as int)),
                None => true,
            },
    {
    }

    /// The facts about the parent of node `i` that every valid tree keeps
    pub proof fn lemma_parent(&self, i: int)
        requires
            self.valid(),
            0 <= i < self.size(),
        ensures
            match self.parent_of(i) {
                Some(p) => p < i,
                None => true,
            },
    {
    }
}

/// The kind of node `i`, as characters
pub open spec fn kind_of(t: SyntaxTree, i: int) -> Seq<char> {
    t.node_at(i).kind@
}

/// The text of node `i`, as characters
pub open spec fn text_of(t: SyntaxTree, i: int) -> Seq<char> {
    t.node_at(i).text@
}

/// The first of `kids[k..]` that fills the field `name`
pub open spec fn field_child_from(t: SyntaxTree, kids: Seq<usize>, k: int, name: Seq<char>) -> Option<usize>
    decreases kids.len() - k,
{
    if k < 0 || k >= kids.len() {
        None
    } else if field_view(t.node_at(kids[k] as int)) == Some(name) {
        Some(kids[k])
    } else {
        field_child_from(t, kids, k + 1, name)
    }
}

/// The first child of node `i` that fills the field `name`
pub open spec fn field_child(t: SyntaxTree, i: int, name: Seq<char>) -> Option<usize> {
    field_child_from(t, t.children_of(i), 0, name)
}

/// The named children of node `i` among `kids[..k]`, in source order
pub open spec fn named_prefix(t: SyntaxTree, kids: Seq<usize>, k: int) -> Seq<usize>
    decreases k,
{
    if k <= 0 || k > kids.len() {
        Seq::empty()
    } else if t.node_at(kids[k - 1] as int).named {
        named_prefix(t, kids, k - 1).push(kids[k - 1])
    } else {
        named_prefix(t, kids, k - 1)
    }
}

/// The named children of node `i`, in source order
pub open spec fn named_children_of(t: SyntaxTree, i: int) -> Seq<usize> {
    named_prefix(t, t.children_of(i), t.children_of(i).len() as int)
}

pub proof fn lemma_named_prefix(t: SyntaxTree, kids: Seq<usize>, k: int)
    requires
        0 <= k <= kids.len(),
    ensures
        forall|j: int| 0 <= j < named_prefix(t, kids, k).len() ==> exists|m: int| 0 <= m < k && #[trigger] named_prefix(t, kids, k)[j] == kids[m],
    decreases k,
{
    if k > 0 {
        lemma_named_prefix(t, kids, k - 1);
        let p = named_prefix(t, kids, k - 1);
        assert forall|j: int| 0 <= j < named_prefix(t, kids, k).len() implies exists|m: int| 0 <= m < k && #[trigger] named_prefix(t, kids, k)[j] == kids[m] by {
            if j < p.len() {
                assert(named_prefix(t, kids, k)[j] == p[j]);
            } else {
                assert(named_prefix(t, kids, k)[j] == kids[k - 1]);
            }
        }
    }
}

/// The named children of a node keep the source order of its children
pub proof fn lemma_named_sorted(t: SyntaxTree, i: int)
    requires
        t.valid(),
        0 <= i < t.size(),
    ensures
        forall|a: int, b: int|
            0 <= a < b < named_children_of(t, i).len() ==> #[trigger] t.node_at(named_children_of(t, i)[a] as int).start
                <= #[trigger] t.node_at(named_children_of(t, i)[b] as int).start,
        named_children_of(t, i).len() <= t.children_of(i).len(),
{
    t.lemma_children(i);
    lemma_named_prefix_sorted(t, t.children_of(i), t.children_of(i).len() as int);
}

proof fn lemma_named_prefix_sorted(t: SyntaxTree, kids: Seq<usize>, k: int)
    requires
        0 <= k <= kids.len(),
        forall|a: int, b: int|
            0 <= a < b < kids.len() ==> #[trigger] t.node_at(kids[a] as int).start <= #[trigger] t.node_at(
                kids[b] as int,
            ).start,
    ensures
        forall|a: int, b: int|
            0 <= a < b < named_prefix(t, kids, k).len() ==> #[trigger] t.node_at(named_prefix(t, kids, k)[a] as int).start
                <= #[trigger] t.node_at(named_prefix(t, kids, k)[b] as int).start,
        forall|j: int| 0 <= j < named_prefix(t, kids, k).len() ==> exists|m: int| 0 <= m < k && #[trigger] named_prefix(t, kids, k)[j] == kids[m],
        named_prefix(t, kids, k).len() <= k,
    decreases k,
{
    lemma_named_prefix(t, kids, k);
    if k > 0 {
        lemma_named_prefix_sorted(t, kids, k - 1);
        let p = named_prefix(t, kids, k - 1);
        let q = named_prefix(t, kids, k);
        if t.node_at(kids[k - 1] as int).named {
            assert forall|a: int, b: int| 0 <= a < b < q.len() implies #[trigger] t.node_at(q[a] as int).start <= #[trigger] t.node_at(q[b] as int).start by {
                if b < p.len() {
                    assert(q[a] == p[a] && q[b] == p[b]);
                } else {
                    assert(q[b] == kids[k - 1]);
                    assert(q[a] == p[a]);
                    let m = choose|m: int| 0 <= m < k - 1 && #[trigger] p[a] == kids[m];
                    assert(t.node_at(kids[m] as int).start <= t.node_at(kids[k - 1] as int).start);
                }
            }
        }
    }
}

/// Returns whether node `i` has the kind `kind`
pub fn kind_is(t: &SyntaxTree, i: usize, kind: &str) -> (r: bool)
    requires
        i < t.size(),
    ensures
        r == (kind_of(*t, i as int) == kind@),
{
    let a = chars_of(t.node(i).kind.as_str());
    let b = chars_of(kind);
    same_chars(a.as_slice(), b.as_slice())
}

/// Returns whether node `i` fills the field `name` in its parent
fn field_is(t: &SyntaxTree, i: usize, name: &str) -> (r: bool)
    requires
        i < t.size(),
    ensures
        r == (field_view(t.node_at(i as int)) == Some(name@)),
{
    match &t.node(i).field {
        Some(f) => {
            let a = chars_of(f.as_str());
            let b = chars_of(name);
            same_chars(a.as_slice(), b.as_slice())
        },
        None => false,
    }
}

/// Returns the first child of node `i` that fills the field `name`
pub fn child_by_field_name(t: &SyntaxTree, i: usize, name: &str) -> (r: Option<usize>)
    requires
        t.valid(),
        i < t.size(),
    ensures
        r == field_child(*t, i as int, name@),
        match r {
            Some(c) => i < c < t.size() && t.parent_of(c as int) == Some(i),
            None => true,
        },
{
    let kids = t.children(i);
    proof {
        t.lemma_children(i as int);
    }
    let mut k: usize = 0;
    while k < kids.len()
        invariant
            t.valid(),
            i < t.size(),
            kids@ == t.children_of(i as int),
            forall|m: int| 0 <= m < kids@.len() ==> i < #[trigger] kids@[m] < t.size() && t.parent_of(kids@[m] as int) == Some(i),
            k <= kids@.len(),
            field_child_from(*t, kids@, k as int, name@) == field_child(*t, i as int, name@),
        decreases kids@.len() - k,
    {
        if field_is(t, kids[k], name) {
            return Some(kids[k]);
        }
        k += 1;
    }
    None
}

/// Returns the named children of node `i`, in source order
pub fn named_children(t: &SyntaxTree, i: usize) -> (r: Vec<usize>)
    requires
        t.valid(),
        i < t.size(),
    ensures
        r@ == named_children_of(*t, i as int),
        forall|k: int| 0 <= k < r@.len() ==> i < #[trigger] r@[k] < t.size() && t.parent_of(r@[k] as int) == Some(i),
{
    let kids = t.children(i);
    proof {
        t.lemma_children(i as int);
    }
    let mut out: Vec<usize> = Vec::new();
    let mut k: usize = 0;
    while k < kids.len()
        invariant
            t.valid(),
            i < t.size(),
            kids@ == t.children_of(i as int),
            forall|m: int| 0 <= m < kids@.len() ==> i < #[trigger] kids@[m] < t.size() && t.parent_of(kids@[m] as int) == Some(i),
            k <= kids@.len(),
            out@ == named_prefix(*t, kids@, k as int),
        decreases kids@.len() - k,
    {
        if t.node(kids[k]).named {
            out.push(kids[k]);
        }
        k += 1;
    }
    proof {
        lemma_named_prefix(*t, kids@, kids@.len() as int);
    }
    out
}

/// The named child of node `parent` at `index`; an index past what a `u32`
/// holds names no child
pub open spec fn named_child_spec(t: SyntaxTree, parent: int, index: int) -> Option<usize> {
    let named = named_children_of(t, parent);
    if index < 0 || index > 4294967295 || index >= named.len() {
        None
    } else {
        Some(named[index])
    }
}

/// Returns the named child of `parent` at `index`
pub fn named_child(t: &SyntaxTree, parent: usize, index: usize) -> (r: Option<usize>)
    requires
        t.valid(),
        parent < t.size(),
    ensures
        r == named_child_spec(*t, parent as int, index as int),
        match r {
            Some(c) => c < t.size(),
            None => true,
        },
{
    if index > 4294967295 {
        return None;
    }
    let named = named_children(t, parent);
    if index < named.len() {
        Some(named[index])
    } else {
        None
    }
}

/// The first index at or after `k` where `s` holds `x`
pub open spec fn first_position(s: Seq<usize>, x: usize, k: int) -> Option<int>
    decreases s.len() - k,
{
    if k < 0 || k >= s.len() {
        None
    } else if s[k] == x {
        Some(k)
    } else {
        first_position(s, x, k + 1)
    }
}

/// Returns the first index where `s` holds `x`
pub fn position_of(s: &[usize], x: usize) -> (r: Option<usize>)
    ensures
        match r {
            Some(k) => first_position(s@, x, 0) == Some(k as int) && k < s@.len(),
            None => first_position(s@, x, 0) is None,
        },
{
    let mut k: usize = 0;
    while k < s.len()
        invariant
            k <= s@.len(),
            first_position(s@, x, 0) == first_position(s@, x, k as int),
        decreases s@.len() - k,
    {
        if s[k] == x {
            return Some(k);
        }
        k += 1;
    }
    None
}

} // verus!
