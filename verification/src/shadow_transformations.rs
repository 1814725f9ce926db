//! Flags a `let` binding that only exists to initialize a later binding
//!
//! Names such as `raw_input` and `trimmed_input` split one value across two
//! bindings, and the reader then has to track which name holds which stage.
use vstd::prelude::*;
use vstd::utf8::*;

use crate::diagnostic::{all_under, diag_view, diag_views, Diagnostic};
use crate::syntax::{
    child_by_field_name, field_child, kind_is, kind_of, lemma_named_prefix, named_children,
    named_children_of, text_of, SyntaxTree,
};
use crate::text::{alphabetic, append, char_is_alphabetic, chars_of, ranges_equal, slice_of};

verus! {

broadcast use vstd::seq_lib::group_seq_properties;

/// The rule's id
pub open spec fn shadow_rule() -> Seq<char> {
    "lint.shadow-transformations"@
}

/// Flags a `let` binding that only exists to initialize a later binding
///
/// The rule fires when two conditions hold. Every read of the first binding
/// sits inside the second binding's initializer. The two names differ but
/// share their last word. That second condition spares `path` and `file`,
/// which name two values rather than one.
pub struct ShadowTransformations;

/// The end of `t[..j]` once trailing underscores are dropped
pub open spec fn trailing_end(t: Seq<char>, j: int) -> int
    decreases j,
{
    if 0 < j <= t.len() && t[j - 1] == '_' {
        trailing_end(t, j - 1)
    } else {
        j
    }
}

/// The start of the word that ends at `j`: just after an underscore, or the
/// start of `t`
pub open spec fn word_start(t: Seq<char>, j: int) -> int
    decreases j,
{
    if 0 < j <= t.len() && t[j - 1] != '_' {
        word_start(t, j - 1)
    } else {
        j
    }
}

/// The last word of a snake_case name, or the whole name when it has none
pub open spec fn head_spec(name: Seq<char>) -> Seq<char> {
    let e = trailing_end(name, name.len() as int);
    if e <= 0 {
        name
    } else {
        name.subrange(word_start(name, e), e)
    }
}

/// The last word two differing binding names share, when it begins with a
/// letter
pub open spec fn shared_spec(first: Seq<char>, second: Seq<char>) -> Option<Seq<char>> {
    let h = head_spec(first);
    if first == second {
        None
    } else if h != head_spec(second) {
        None
    } else if h.len() == 0 || !alphabetic(h[0]) {
        None
    } else {
        Some(h)
    }
}

/// Whether `{name}` or `{name:` starts at byte `i` of `t`
pub open spec fn capture_at(t: Seq<u8>, i: int, name: Seq<u8>) -> bool {
    &&& 0 <= i
    &&& i + name.len() + 2 <= t.len()
    &&& t[i] == 123u8
    &&& t.subrange(i + 1, i + 1 + name.len()) == name
    &&& (t[i + 1 + name.len()] == 125u8 || t[i + 1 + name.len()] == 58u8)
}

/// Whether the bytes of `t` from `from` on capture `name` inline
pub open spec fn captured_after(t: Seq<u8>, from: int, name: Seq<u8>) -> bool {
    exists|i: int| from <= i && #[trigger] capture_at(t, i, name)
}

proof fn lemma_trailing_end(t: Seq<char>, j: int)
    requires
        0 <= j <= t.len(),
    ensures
        0 <= trailing_end(t, j) <= j,
        trailing_end(t, j) > 0 ==> t[trailing_end(t, j) - 1] != '_',
        forall|k: int| trailing_end(t, j) <= k < j ==> t[k] == '_',
    decreases j,
{
    if 0 < j && t[j - 1] == '_' {
        lemma_trailing_end(t, j - 1);
    }
}

proof fn lemma_word_start(t: Seq<char>, j: int)
    requires
        0 <= j <= t.len(),
    ensures
        0 <= word_start(t, j) <= j,
        forall|k: int| word_start(t, j) <= k < j ==> t[k] != '_',
    decreases j,
{
    if 0 < j && t[j - 1] != '_' {
        lemma_word_start(t, j - 1);
    }
}

/// Returns the range of the last word of `s[..]`, or the whole range
fn head_range(s: &[char]) -> (r: (usize, usize))
    ensures
        r.0 <= r.1 <= s@.len(),
        s@.subrange(r.0 as int, r.1 as int) == head_spec(s@),
{
    let n = s.len();
    let mut e = n;
    while e > 0 && s[e - 1] == '_'
        invariant
            e <= n == s@.len(),
            trailing_end(s@, e as int) == trailing_end(s@, n as int),
        decreases e,
    {
        e -= 1;
    }
    if e == 0 {
        assert(s@.subrange(0, n as int) =~= s@);
        return (0, n);
    }
    let mut a = e;
    while a > 0 && s[a - 1] != '_'
        invariant
            a <= e <= n == s@.len(),
            word_start(s@, a as int) == word_start(s@, e as int),
        decreases a,
    {
        a -= 1;
    }
    (a, e)
}

/// Returns the last word of a snake_case name
///
/// English puts the head noun last, so `raw_input` and `trimmed_input` both
/// describe an input, while `config_path` describes a path.
pub fn head(name: &str) -> (r: &str)
    ensures
        r@ == head_spec(name@),
{
    let s = chars_of(name);
    let (a, b) = head_range(s.as_slice());
    slice_of(name, s.as_slice(), a, b)
}

/// Returns whether `t[i..]` starts with `p`
fn bytes_at(t: &[u8], i: usize, p: &[u8]) -> (r: bool)
    requires
        i <= t@.len(),
    ensures
        r == (i + p@.len() <= t@.len() && t@.subrange(i as int, i + p@.len()) == p@),
{
    let n = t.len();
    if p.len() > n - i {
        return false;
    }
    let mut k: usize = 0;
    while k < p.len()
        invariant
            i + p@.len() <= t@.len() == n,
            k <= p@.len(),
            forall|j: int| 0 <= j < k ==> t@[i + j] == p@[j],
        decreases p@.len() - k,
    {
        if t[i + k] != p[k] {
            assert(t@.subrange(i as int, i + p@.len())[k as int] != p@[k as int]);
            return false;
        }
        k += 1;
    }
    assert(t@.subrange(i as int, i + p@.len()) =~= p@);
    true
}

/// Returns whether the bytes of `t` from `from` on hold `{name}` or `{name:`
fn captures_from(t: &[u8], from: usize, name: &[u8]) -> (r: bool)
    requires
        from <= t@.len(),
    ensures
        r == captured_after(t@, from as int, name@),
{
    let n = t.len();
    let mut i = from;
    while i < n
        invariant
            from <= i <= n == t@.len(),
            forall|j: int| from <= j < i ==> !#[trigger] capture_at(t@, j, name@),
        decreases n - i,
    {
        if t[i] == 123u8 && n - i >= 2 && name.len() <= n - i - 2 && bytes_at(t, i + 1, name) {
            let c = t[i + 1 + name.len()];
            if c == 125u8 || c == 58u8 {
                assert(capture_at(t@, i as int, name@));
                return true;
            }
        }
        assert(!capture_at(t@, i as int, name@));
        i += 1;
    }
    assert forall|j: int| from <= j implies !#[trigger] capture_at(t@, j, name@) by {
        if j >= n {
            assert(!(j + name@.len() + 2 <= t@.len()));
        }
    }
    false
}

/// Returns whether `text` captures `name` inline, as `{name}` or `{name:`
///
/// An inline capture such as `println!("{raw_input}")` reads the binding
/// without an `identifier` node, so the rule must find it in the text. The
/// check is textual, so a match in any other string also counts.
pub fn is_captured_by_format(text: &str, name: &str) -> (r: bool)
    ensures
        r == captured_after(encode_utf8(text@), 0, encode_utf8(name@)),
{
    captures_from(text.as_bytes(), 0, name.as_bytes())
}

/// Returns the last word two differing binding names share
///
/// A shared last word is the rule's proxy for one value at two stages, and
/// the diagnostic offers that word as the name to keep. A word that does not
/// begin with a letter is a disambiguator rather than a head noun, so
/// `left_1` and `right_1` share nothing.
pub fn shared_head<'a>(first: &'a str, second: &str) -> (r: Option<&'a str>)
    ensures
        match r {
            Some(h) => shared_spec(first@, second@) == Some(h@),
            None => shared_spec(first@, second@) is None,
        },
{
    let a = chars_of(first);
    let b = chars_of(second);
    if crate::text::same_chars(a.as_slice(), b.as_slice()) {
        return None;
    }
    let (x, y) = head_range(a.as_slice());
    let (u, v) = head_range(b.as_slice());
    if !ranges_equal(a.as_slice(), x, y, b.as_slice(), u, v) {
        return None;
    }
    if x == y || !char_is_alphabetic(a[x]) {
        return None;
    }
    Some(slice_of(first, a.as_slice(), x, y))
}

/// A `let` statement that binds one plain, immutable name to a value
///
/// The rule looks at this shape only. It ignores a destructuring pattern, a
/// `let ... else`, a `mut` binding, a name that starts with `_`, and a `let`
/// with no value. The fields hold the name, the index of the pattern node,
/// the index of the value node, and the byte where the statement ends.
pub struct Binding<'a> {
    pub name: &'a str,
    pub pattern: usize,
    pub value: usize,
    pub end: usize,
}

/// What a binding says, as plain values
pub open spec fn binding_view(b: Binding) -> (Seq<char>, usize, usize, usize) {
    (b.name@, b.pattern, b.value, b.end)
}

/// Whether some named child of node `i` has the kind `kind`
pub open spec fn has_named_kind(t: SyntaxTree, i: int, kind: Seq<char>) -> bool {
    exists|k: int|
        0 <= k < named_children_of(t, i).len() && #[trigger] kind_of(
            t,
            named_children_of(t, i)[k] as int,
        ) == kind
}

/// The binding that statement `s` declares, if it has the shape the rule
/// reads
pub open spec fn binding_of(t: SyntaxTree, s: int) -> Option<(Seq<char>, usize, usize, usize)> {
    if kind_of(t, s) != "let_declaration"@ {
        None
    } else if field_child(t, s, "alternative"@) is Some {
        None
    } else if has_named_kind(t, s, "mutable_specifier"@) {
        None
    } else {
        match field_child(t, s, "pattern"@) {
            None => None,
            Some(p) => {
                let name = text_of(t, p as int);
                if kind_of(t, p as int) != "identifier"@ {
                    None
                } else if name.len() > 0 && name[0] == '_' {
                    None
                } else {
                    match field_child(t, s, "value"@) {
                        None => None,
                        Some(v) => Some((name, p, v, t.node_at(s).end)),
                    }
                }
            },
        }
    }
}

impl<'a> Binding<'a> {
    /// Returns the binding that `statement` declares, if it has that shape
    pub fn from_statement(t: &'a SyntaxTree, statement: usize) -> (r: Option<Self>)
        requires
            t.valid(),
            statement < t.size(),
        ensures
            match r {
                Some(b) => {
                    &&& binding_of(*t, statement as int) == Some(binding_view(b))
                    &&& b.pattern < t.size()
                    &&& b.value < t.size()
                    &&& b.end == t.node_at(statement as int).end
                },
                None => binding_of(*t, statement as int) is None,
            },
    {
        if !kind_is(t, statement, "let_declaration") {
            return None;
        }
        if child_by_field_name(t, statement, "alternative").is_some() {
            return None;
        }
        let children = named_children(t, statement);
        let mut k: usize = 0;
        while k < children.len()
            invariant
                t.valid(),
                statement < t.size(),
                children@ == named_children_of(*t, statement as int),
                forall|m: int| 0 <= m < children@.len() ==> #[trigger] children@[m] < t.size(),
                k <= children@.len(),
                forall|m: int| 0 <= m < k ==> #[trigger] kind_of(*t, children@[m] as int) != "mutable_specifier"@,
            decreases children@.len() - k,
        {
            if kind_is(t, children[k], "mutable_specifier") {
                assert(kind_of(*t, named_children_of(*t, statement as int)[k as int] as int) == "mutable_specifier"@);
                return None;
            }
            k += 1;
        }
        let pattern = match child_by_field_name(t, statement, "pattern") {
            Some(p) => p,
            None => return None,
        };
        if !kind_is(t, pattern, "identifier") {
            return None;
        }
        let name = t.node(pattern).text.as_str();
        if !name.is_empty() && name.get_char(0) == '_' {
            return None;
        }
        let value = match child_by_field_name(t, statement, "value") {
            Some(v) => v,
            None => return None,
        };
        Some(Binding { name, pattern, value, end: t.node(statement).end })
    }
}

/// The bindings that the statements `stmts[..k]` declare, in order
pub open spec fn bindings_in(t: SyntaxTree, stmts: Seq<usize>, k: int) -> Seq<(Seq<char>, usize, usize, usize)>
    decreases k,
{
    if k <= 0 || k > stmts.len() {
        Seq::empty()
    } else {
        let p = bindings_in(t, stmts, k - 1);
        match binding_of(t, stmts[k - 1] as int) {
            Some(b) => p.push(b),
            None => p,
        }
    }
}

/// The `identifier` nodes below node `i`, in the order a depth-first walk of
/// the named children meets them
pub open spec fn idents_under(t: SyntaxTree, i: int) -> Seq<usize>
    decreases t.size() - i, t.children_of(i).len() + 1,
{
    idents_kids(t, i, 0)
}

/// The `identifier` nodes below the children of node `i` from the `k`-th on
pub open spec fn idents_kids(t: SyntaxTree, i: int, k: int) -> Seq<usize>
    decreases t.size() - i, t.children_of(i).len() - k,
{
    let kids = t.children_of(i);
    if k < 0 || k >= kids.len() {
        Seq::empty()
    } else {
        let c = kids[k];
        let here = if i < c < t.size() && t.node_at(c as int).named {
            (if kind_of(t, c as int) == "identifier"@ {
                seq![c]
            } else {
                Seq::empty()
            }) + idents_under(t, c as int)
        } else {
            Seq::empty()
        };
        here + idents_kids(t, i, k + 1)
    }
}

/// Appends every `identifier` node below `node` to `out`
///
/// A macro body holds `identifier` nodes too, so a macro call counts as a
/// read.
pub fn collect_identifiers(t: &SyntaxTree, node: usize, out: &mut Vec<usize>)
    requires
        t.valid(),
        node < t.size(),
    ensures
        final(out)@ == old(out)@ + idents_under(*t, node as int),
    decreases t.size() - node,
{
    let kids = t.children(node);
    let ghost start = out@;
    let mut k: usize = 0;
    while k < kids.len()
        invariant
            t.valid(),
            node < t.size(),
            kids@ == t.children_of(node as int),
            forall|m: int| 0 <= m < kids@.len() ==> node < #[trigger] kids@[m] < t.size(),
            k <= kids@.len(),
            start + idents_under(*t, node as int) == out@ + idents_kids(*t, node as int, k as int),
        decreases kids@.len() - k,
    {
        let c = kids[k];
        let ghost before = out@;
        if t.node(c).named {
            if kind_is(t, c, "identifier") {
                out.push(c);
            }
            collect_identifiers(t, c, out);
        }
        assert(before + idents_kids(*t, node as int, k as int) =~= out@ + idents_kids(*t, node as int, k + 1));
        k += 1;
    }
}

/// Whether the byte range of node `v` covers the byte at `offset`
pub open spec fn covers(t: SyntaxTree, v: int, offset: int) -> bool {
    t.node_at(v).start <= offset < t.node_at(v).end
}

/// Returns whether node `v` covers the byte at `offset`
pub fn contains(t: &SyntaxTree, v: usize, offset: usize) -> (r: bool)
    requires
        v < t.size(),
    ensures
        r == covers(*t, v as int, offset as int),
{
    let n = t.node(v);
    n.start <= offset && offset < n.end
}

/// The offsets of the reads of `name` among `ids[..k]` at or after `end`
pub open spec fn uses_in(t: SyntaxTree, ids: Seq<usize>, k: int, name: Seq<char>, end: usize) -> Seq<usize>
    decreases k,
{
    if k <= 0 || k > ids.len() {
        Seq::empty()
    } else {
        let p = uses_in(t, ids, k - 1, name, end);
        let id = ids[k - 1] as int;
        if 0 <= id < t.size() && text_of(t, id) == name && t.node_at(id).start >= end {
            p.push(t.node_at(id).start)
        } else {
            p
        }
    }
}

/// The first binding from the `k`-th on whose value covers `offset`
pub open spec fn successor_from(t: SyntaxTree, bs: Seq<(Seq<char>, usize, usize, usize)>, k: int, offset: int) -> Option<int>
    decreases bs.len() - k,
{
    if k < 0 || k >= bs.len() {
        None
    } else if covers(t, bs[k].2 as int, offset) {
        Some(k)
    } else {
        successor_from(t, bs, k + 1, offset)
    }
}

/// The advice for a binding `first` that only feeds `second`
pub open spec fn shadow_message(first: Seq<char>, second: Seq<char>, shared: Seq<char>) -> Seq<char> {
    "`"@ + first + "` is only used to initialize `"@ + second + "`; use `"@ + shared
        + "` for both and shadow"@
}

/// The diagnostic for the `j`-th binding of `block`, if the rule reports one
pub open spec fn report_for(
    t: SyntaxTree,
    block: int,
    bs: Seq<(Seq<char>, usize, usize, usize)>,
    ids: Seq<usize>,
    j: int,
) -> Option<(Seq<char>, Seq<char>, usize, usize)> {
    let b = bs[j];
    let uses = uses_in(t, ids, ids.len() as int, b.0, b.3);
    if uses.len() == 0 {
        None
    } else {
        match successor_from(t, bs, j + 1, uses[0] as int) {
            None => None,
            Some(m) => {
                let s = bs[m];
                if !(forall|u: int| 0 <= u < uses.len() ==> #[trigger] covers(t, s.2 as int, uses[u] as int)) {
                    None
                } else {
                    match shared_spec(b.0, s.0) {
                        None => None,
                        Some(h) => if captured_after(
                            encode_utf8(text_of(t, block)),
                            b.3 - t.node_at(block).start,
                            encode_utf8(b.0),
                        ) {
                            None
                        } else {
                            Some(
                                (
                                    shadow_rule(),
                                    shadow_message(b.0, s.0, h),
                                    t.node_at(b.1 as int).start,
                                    t.node_at(b.1 as int).end,
                                ),
                            )
                        },
                    }
                }
            },
        }
    }
}

/// The diagnostics for the first `j` bindings of `block`, in order
pub open spec fn reports_upto(
    t: SyntaxTree,
    block: int,
    bs: Seq<(Seq<char>, usize, usize, usize)>,
    ids: Seq<usize>,
    j: int,
) -> Seq<(Seq<char>, Seq<char>, usize, usize)>
    decreases j,
{
    if j <= 0 || j > bs.len() {
        Seq::empty()
    } else {
        let p = reports_upto(t, block, bs, ids, j - 1);
        match report_for(t, block, bs, ids, j - 1) {
            Some(d) => p.push(d),
            None => p,
        }
    }
}

/// What the rule reports for `block`
pub open spec fn analyze_spec(t: SyntaxTree, block: int) -> Seq<(Seq<char>, Seq<char>, usize, usize)> {
    let stmts = named_children_of(t, block);
    let bs = bindings_in(t, stmts, stmts.len() as int);
    if bs.len() < 2 {
        Seq::empty()
    } else {
        reports_upto(t, block, bs, idents_under(t, block), bs.len() as int)
    }
}

/// The views of a list of bindings
pub open spec fn binding_views(bs: Seq<Binding>) -> Seq<(Seq<char>, usize, usize, usize)> {
    bs.map_values(|b: Binding| binding_view(b))
}

/// Returns one diagnostic for every binding in `block` whose only reader is a
/// later binding with the same last word
///
/// Only statements directly inside `block` can start a chain, but a name
/// counts as used wherever it appears below `block`. A read outside the
/// successor's initializer therefore keeps the binding alive, even from a
/// nested scope.
pub fn analyze(t: &SyntaxTree, block: usize) -> (r: Vec<Diagnostic>)
    requires
        t.valid(),
        block < t.size(),
    ensures
        all_under(diag_views(r@), "lint.shadow-transformations"@),
        diag_views(r@) == analyze_spec(*t, block as int),
{
    let statements = named_children(t, block);
    let ghost stmts = statements@;
    let bstart = t.node(block).start;
    let bend = t.node(block).end;
    proof {
        t.lemma_ranges(block as int);
    }
    let mut bindings: Vec<Binding> = Vec::new();
    let mut k: usize = 0;
    while k < statements.len()
        invariant
            t.valid(),
            block < t.size(),
            statements@ == stmts,
            stmts == named_children_of(*t, block as int),
            forall|m: int| 0 <= m < stmts.len() ==> block < #[trigger] stmts[m] < t.size() && t.parent_of(stmts[m] as int) == Some(block),
            bstart == t.node_at(block as int).start,
            bend == t.node_at(block as int).end,
            k <= stmts.len(),
            binding_views(bindings@) == bindings_in(*t, stmts, k as int),
            forall|m: int| 0 <= m < bindings@.len() ==> {
                &&& #[trigger] bindings@[m].pattern < t.size()
                &&& bindings@[m].value < t.size()
                &&& bstart <= bindings@[m].end <= bend
            },
        decreases stmts.len() - k,
    {
        let ghost before = binding_views(bindings@);
        match Binding::from_statement(t, statements[k]) {
            Some(b) => {
                proof {
                    t.lemma_ranges(stmts[k as int] as int);
                }
                let ghost prev = bindings@;
                let ghost gb = b;
                bindings.push(b);
                assert(binding_views(bindings@) =~= before.push(binding_view(gb)));
                assert forall|m: int| 0 <= m < bindings@.len() implies {
                    &&& #[trigger] bindings@[m].pattern < t.size()
                    &&& bindings@[m].value < t.size()
                    &&& bstart <= bindings@[m].end <= bend
                } by {
                    if m < prev.len() {
                        assert(bindings@[m] == prev[m]);
                        assert(prev[m].pattern < t.size());
                    } else {
                        assert(bindings@[m] == gb);
                    }
                }
            },
            None => {},
        }
        k += 1;
    }
    let ghost bs = binding_views(bindings@);
    assert(stmts.len() == statements@.len());
    if bindings.len() < 2 {
        return Vec::new();
    }
    let mut identifiers: Vec<usize> = Vec::new();
    collect_identifiers(t, block, &mut identifiers);
    let ghost ids = identifiers@;
    assert(ids =~= idents_under(*t, block as int));
    let text = t.node(block).text.as_str().as_bytes();
    let mut diagnostics: Vec<Diagnostic> = Vec::new();
    let mut index: usize = 0;
    while index < bindings.len()
        invariant
            t.valid(),
            block < t.size(),
            bs == binding_views(bindings@),
            bs == bindings_in(*t, stmts, stmts.len() as int),
            stmts == named_children_of(*t, block as int),
            ids == identifiers@,
            ids == idents_under(*t, block as int),
            forall|m: int| 0 <= m < bindings@.len() ==> {
                &&& #[trigger] bindings@[m].pattern < t.size()
                &&& bindings@[m].value < t.size()
                &&& bstart <= bindings@[m].end <= bend
            },
            bstart == t.node_at(block as int).start,
            text@ == encode_utf8(text_of(*t, block as int)),
            text@.len() == bend - bstart,
            bs.len() >= 2,
            index <= bs.len(),
            diag_views(diagnostics@) == reports_upto(*t, block as int, bs, ids, index as int),
            all_under(diag_views(diagnostics@), "lint.shadow-transformations"@),
        decreases bs.len() - index,
    {
        let ghost before = diag_views(diagnostics@);
        let found = report(t, block, &bindings, &identifiers, index, text);
        match found {
            Some(d) => {
                diagnostics.push(d);
                assert(diag_views(diagnostics@) =~= before.push(diag_view(d)));
                assert(diag_views(diagnostics@)[diag_views(diagnostics@).len() - 1] == diag_view(d));
            },
            None => {},
        }
        index += 1;
    }
    diagnostics
}

/// Returns the diagnostic for binding `index` of `block`, if the rule reports
/// one
#[verifier::loop_isolation(false)]
fn report(
    t: &SyntaxTree,
    block: usize,
    bindings: &Vec<Binding>,
    identifiers: &Vec<usize>,
    index: usize,
    text: &[u8],
) -> (r: Option<Diagnostic>)
    requires
        t.valid(),
        block < t.size(),
        index < bindings@.len(),
        text@ == encode_utf8(text_of(*t, block as int)),
        forall|m: int| 0 <= m < bindings@.len() ==> {
            &&& #[trigger] bindings@[m].pattern < t.size()
            &&& bindings@[m].value < t.size()
            &&& t.node_at(block as int).start <= bindings@[m].end <= t.node_at(block as int).start
                + text@.len()
        },
    ensures
        match r {
            Some(d) => d.rule@ == "lint.shadow-transformations"@,
            None => true,
        },
        match r {
            Some(d) => report_for(*t, block as int, binding_views(bindings@), identifiers@, index as int)
                == Some(diag_view(d)),
            None => report_for(*t, block as int, binding_views(bindings@), identifiers@, index as int) is None,
        },
{
    let ghost bs = binding_views(bindings@);
    let ghost ids = identifiers@;
    let nb = bindings.len();
    let b = &bindings[index];
    let ghost bv = bs[index as int];
    assert(bv == binding_view(*b));
    let mut uses: Vec<usize> = Vec::new();
    let mut k: usize = 0;
    while k < identifiers.len()
        invariant
            ids == identifiers@,
            bv == binding_view(*b),
            k <= ids.len(),
            uses@ == uses_in(*t, ids, k as int, bv.0, bv.3),
        decreases ids.len() - k,
    {
        let id = identifiers[k];
        if id < t.len() {
            let n = t.node(id);
            let same = crate::text::text_is(n.text.as_str(), b.name);
            if same && n.start >= b.end {
                uses.push(n.start);
            }
        }
        k += 1;
    }
    if uses.len() == 0 {
        return None;
    }
    let first = uses[0];
    let mut m = index + 1;
    while m < bindings.len() && !contains(t, bindings[m].value, first)
        invariant
            bs == binding_views(bindings@),
            index < m <= bindings@.len(),
            successor_from(*t, bs, m as int, first as int) == successor_from(*t, bs, index + 1, first as int),
        decreases bindings@.len() - m,
    {
        m += 1;
    }
    if m == bindings.len() {
        return None;
    }
    let successor = &bindings[m];
    assert(bs[m as int] == binding_view(*successor));
    let mut u: usize = 0;
    while u < uses.len()
        invariant
            successor.value < t.size(),
            u <= uses@.len(),
            forall|q: int| 0 <= q < u ==> #[trigger] covers(*t, successor.value as int, uses@[q] as int),
        decreases uses@.len() - u,
    {
        if !contains(t, successor.value, uses[u]) {
            return None;
        }
        u += 1;
    }
    let shared = match shared_head(b.name, successor.name) {
        Some(h) => h,
        None => return None,
    };
    let bstart = t.node(block).start;
    if captures_from(text, b.end - bstart, b.name.as_bytes()) {
        return None;
    }
    let mut message = String::new();
    append(&mut message, "`");
    append(&mut message, b.name);
    append(&mut message, "` is only used to initialize `");
    append(&mut message, successor.name);
    append(&mut message, "`; use `");
    append(&mut message, shared);
    append(&mut message, "` for both and shadow");
    let pattern = t.node(b.pattern);
    Some(Diagnostic::new("lint.shadow-transformations", message, pattern.start, pattern.end))
}


impl ShadowTransformations {
    /// Checks one `block`: each binding whose only reader is a later binding
    /// with the same last word gets a warning
    pub fn check_block(&self, t: &SyntaxTree, block: usize) -> (r: Vec<Diagnostic>)
        requires
            t.valid(),
            block < t.size(),
        ensures
            all_under(diag_views(r@), "lint.shadow-transformations"@),
            diag_views(r@) == analyze_spec(*t, block as int),
    {
        analyze(t, block)
    }
}

} // verus!
