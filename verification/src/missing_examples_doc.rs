//! Flags a public item whose doc comment has no `# Examples` section
//!
//! Clippy checks `# Errors`, `# Panics`, and `# Safety`, but has no
//! equivalent check for examples. The rule reads only the item's own doc
//! comment. It stays silent on an item with no docs at all, and on one
//! documented through `#[doc = ...]`, whose text it cannot see. It also
//! skips `#[doc(hidden)]` items, items under a module that is not `pub`, and
//! trait members. A `pub` method on a private type is a false positive: the
//! syntax alone cannot tell whether the type an `impl` block names leaves
//! the crate.
use vstd::prelude::*;

use crate::diagnostic::{all_under, diag_view, diag_views, Diagnostic};
use crate::long_doc_sentence::sentence::{count_run, lemma_run_len, run_len};
use crate::no_em_dash_aside::markdown::{line_view, line_views, DocLine};
use crate::reference_style_links::doc_block::{body_lines, push_lines, trimmed_body};
use crate::syntax::{
    child_by_field_name, field_child, first_position, kind_is, kind_of, named_children,
    named_children_of, position_of, text_of, SyntaxTree,
};
use crate::text::{
    append, chars_of, chars_range, is_whitespace, is_ws, matches_at, range_is, strip_prefix,
    strip_prefix_at, trim, trim_at, utf8_size,
};

verus! {

broadcast use vstd::seq_lib::group_seq_properties;

/// Flags documented public items without an `# Examples` section
pub struct MissingExamplesDoc;

/// The kinds of item the rule checks
///
/// The variant supplies the word the diagnostic uses, so the message names
/// the item the reader sees rather than a node kind.
#[derive(Clone, Copy, Debug, PartialEq, Eq, Structural)]
pub enum ItemKind {
    Constant,
    Enum,
    Function,
    Static,
    Struct,
    Trait,
    TypeAlias,
    Union,
}

/// The word the diagnostic uses for an item kind
pub open spec fn kind_word(k: ItemKind) -> Seq<char> {
    match k {
        ItemKind::Constant => "constant"@,
        ItemKind::Enum => "enum"@,
        ItemKind::Function => "function"@,
        ItemKind::Static => "static"@,
        ItemKind::Struct => "struct"@,
        ItemKind::Trait => "trait"@,
        ItemKind::TypeAlias => "type alias"@,
        ItemKind::Union => "union"@,
    }
}

impl ItemKind {
    /// Returns the word the diagnostic uses for this kind
    pub fn as_str(self) -> (r: &'static str)
        ensures
            r@ == kind_word(self),
    {
        match self {
            ItemKind::Constant => "constant",
            ItemKind::Enum => "enum",
            ItemKind::Function => "function",
            ItemKind::Static => "static",
            ItemKind::Struct => "struct",
            ItemKind::Trait => "trait",
            ItemKind::TypeAlias => "type alias",
            ItemKind::Union => "union",
        }
    }
}

/// The character a fenced code block repeats to delimit itself
///
/// A fence closes only on the character it opened with, so a `~~~` line
/// inside a backtick block is part of the example rather than its end.
#[derive(Clone, Copy, Debug, PartialEq, Eq, Structural)]
pub enum FenceMarker {
    Backtick,
    Tilde,
}

/// The character a fence of marker `m` repeats
pub open spec fn marker_char(m: FenceMarker) -> char {
    match m {
        FenceMarker::Backtick => '`',
        FenceMarker::Tilde => '~',
    }
}

impl FenceMarker {
    /// Returns the character a fence of this marker repeats
    pub fn as_char(self) -> (r: char)
        ensures
            r == marker_char(self),
    {
        match self {
            FenceMarker::Backtick => '`',
            FenceMarker::Tilde => '~',
        }
    }

    /// Returns the length of the leading run of this marker in `line`
    pub fn split_run(self, line: &[char]) -> (r: usize)
        ensures
            r == run_len(line@, 0, marker_char(self)),
            r <= line@.len(),
    {
        count_run(line, 0, self.as_char())
    }
}

/// A fenced code block the scan has entered but not yet left
///
/// A fence closes only on a run of at least as many of its own marker, and
/// a closing run carries no language name. A doc comment can therefore open
/// with four backticks to show a three-backtick block inside, and the inner
/// lines stay code.
#[derive(Clone, Copy, Debug, PartialEq, Eq, Structural)]
pub struct CodeFence {
    pub marker: FenceMarker,
    pub length: usize,
}

/// The shortest run CommonMark accepts as a fence
pub const MIN_FENCE: usize = 3;

/// The fence a decorated doc line opens: a run of at least three backticks,
/// or else of at least three tildes
pub open spec fn opening_spec(l: Seq<char>) -> Option<(char, nat)> {
    if run_len(l, 0, '`') >= MIN_FENCE {
        Some(('`', run_len(l, 0, '`')))
    } else if run_len(l, 0, '~') >= MIN_FENCE {
        Some(('~', run_len(l, 0, '~')))
    } else {
        None
    }
}

/// Whether line `l` closes the fence `f`: a run at least as long of its
/// character, with nothing but whitespace after it
pub open spec fn closes_spec(f: (char, nat), l: Seq<char>) -> bool {
    let n = run_len(l, 0, f.0);
    n >= f.1 && trim(l.subrange(n as int, l.len() as int)).len() == 0
}

/// A fence as plain values: its character and its length
pub open spec fn fence_view(f: CodeFence) -> (char, nat) {
    (marker_char(f.marker), f.length as nat)
}

impl CodeFence {
    /// Returns the fence a doc line opens, or [`None`] if it opens none
    pub fn opening(line: &[char]) -> (r: Option<Self>)
        ensures
            match r {
                Some(f) => opening_spec(line@) == Some(fence_view(f)),
                None => opening_spec(line@) is None,
            },
    {
        let b = FenceMarker::Backtick.split_run(line);
        if b >= MIN_FENCE {
            return Some(CodeFence { marker: FenceMarker::Backtick, length: b });
        }
        let t = FenceMarker::Tilde.split_run(line);
        if t >= MIN_FENCE {
            return Some(CodeFence { marker: FenceMarker::Tilde, length: t });
        }
        None
    }

    /// Returns whether a doc line closes this fence
    pub fn closes(self, line: &[char]) -> (r: bool)
        ensures
            r == closes_spec(fence_view(self), line@),
    {
        let n = self.marker.split_run(line);
        let (a, b) = trim_at(line, n, line.len());
        n >= self.length && a == b
    }
}

/// A doc line without its surrounding whitespace and, for a block doc
/// comment, without the leading `*` and the whitespace around it
pub open spec fn decoration_stripped(l: Seq<char>) -> Seq<char> {
    let t = trim(l);
    if t.len() > 0 && t[0] == '*' {
        trim(t.subrange(1, t.len() as int))
    } else {
        t
    }
}

/// Whether a doc line is a Markdown heading of level one to six that reads
/// `Examples`
pub open spec fn examples_heading(l: Seq<char>) -> bool {
    let level = run_len(l, 0, '#');
    let rest = l.subrange(level as int, l.len() as int);
    &&& 0 < level <= 6
    &&& rest.len() > 0
    &&& (rest[0] == ' ' || rest[0] == '\t')
    &&& trim(rest) == "Examples"@
}

/// Whether one of `lines[k..]` opens an `Examples` section, given the fence
/// the scan is inside of, if any
pub open spec fn heading_from(lines: Seq<Seq<char>>, k: int, fence: Option<(char, nat)>) -> bool
    decreases lines.len() - k,
{
    if k < 0 || k >= lines.len() {
        false
    } else {
        let l = decoration_stripped(lines[k]);
        match fence {
            Some(f) => if closes_spec(f, l) {
                heading_from(lines, k + 1, None)
            } else {
                heading_from(lines, k + 1, Some(f))
            },
            None => match opening_spec(l) {
                Some(f) => heading_from(lines, k + 1, Some(f)),
                None => examples_heading(l) || heading_from(lines, k + 1, None),
            },
        }
    }
}

/// Removes the surrounding whitespace and the leading `*` of a block doc
/// comment
pub fn strip_decoration(line: &[char]) -> (r: Vec<char>)
    ensures
        r@ == decoration_stripped(line@),
{
    let n = line.len();
    assert(line@.subrange(0, n as int) =~= line@);
    let (a, b) = trim_at(line, 0, n);
    if a < b && line[a] == '*' {
        let ghost t = line@.subrange(a as int, b as int);
        assert(t.subrange(1, t.len() as int) =~= line@.subrange(a + 1, b as int));
        let (c, d) = trim_at(line, a + 1, b);
        chars_range(line, c, d)
    } else {
        chars_range(line, a, b)
    }
}

/// Returns whether a doc line is a Markdown heading that reads `Examples`
pub fn is_examples_heading(line: &[char]) -> (r: bool)
    ensures
        r == examples_heading(line@),
{
    let level = count_run(line, 0, '#');
    let n = line.len();
    if level == 0 || level > 6 || level == n {
        return false;
    }
    if line[level] != ' ' && line[level] != '\t' {
        return false;
    }
    let (a, b) = trim_at(line, level, n);
    range_is(line, a, b, "Examples")
}

/// Returns whether any doc line opens an `Examples` section
///
/// A heading inside a fenced code block does not count, because there `#`
/// marks a doctest line that rustdoc hides.
pub fn has_examples_heading(lines: &[&str]) -> (r: bool)
    ensures
        r == heading_from(lines@.map_values(|l: &str| l@), 0, None),
{
    let ghost ls = lines@.map_values(|l: &str| l@);
    let mut fence: Option<CodeFence> = None;
    let mut k: usize = 0;
    while k < lines.len()
        invariant
            ls == lines@.map_values(|l: &str| l@),
            k <= lines@.len(),
            heading_from(ls, 0, None) == heading_from(
                ls,
                k as int,
                match fence {
                    Some(f) => Some(fence_view(f)),
                    None => None,
                },
            ),
        decreases lines@.len() - k,
    {
        let raw = chars_of(lines[k]);
        assert(raw@ == ls[k as int]);
        let line = strip_decoration(raw.as_slice());
        match fence {
            Some(open) => {
                if open.closes(line.as_slice()) {
                    fence = None;
                }
            },
            None => {
                match CodeFence::opening(line.as_slice()) {
                    Some(f) => {
                        fence = Some(f);
                    },
                    None => {
                        if is_examples_heading(line.as_slice()) {
                            return true;
                        }
                    },
                }
            },
        }
        k += 1;
    }
    false
}


/// `s` without its whitespace characters
pub open spec fn without_ws(s: Seq<char>) -> Seq<char>
    decreases s.len(),
{
    if s.len() == 0 {
        s
    } else if is_ws(s.last()) {
        without_ws(s.drop_last())
    } else {
        without_ws(s.drop_last()).push(s.last())
    }
}

/// Whether an attribute's text puts the item's docs out of the rule's
/// reach: `#[doc(hidden)]`, or `#[doc = ...]`, whose text comes from
/// elsewhere
pub open spec fn silences_spec(text: Seq<char>) -> bool {
    match strip_prefix(without_ws(text), "#[doc"@) {
        None => false,
        Some(rest) => (rest.len() > 0 && rest[0] == '=') || strip_prefix(rest, "(hidden)"@) is Some,
    }
}

/// The lines of a doc field's text, as `str::lines` splits them
pub open spec fn text_lines(text: Seq<char>) -> Seq<Seq<char>> {
    if text.len() == 0 {
        Seq::empty()
    } else {
        body_lines(trimmed_body(text, true), 0).map_values(|l: (Seq<char>, usize)| l.0)
    }
}

/// The doc lines of the doc nodes `ds`, in order
pub open spec fn lines_of(t: SyntaxTree, ds: Seq<usize>) -> Seq<Seq<char>>
    decreases ds.len(),
{
    if ds.len() == 0 {
        Seq::empty()
    } else {
        lines_of(t, ds.drop_last()) + text_lines(text_of(t, ds.last() as int))
    }
}

/// Whether a node kind is a comment
pub open spec fn is_comment_kind(k: Seq<char>) -> bool {
    k == "line_comment"@ || k == "block_comment"@
}

/// The doc nodes among the siblings `kids[..i]` that belong to the item at
/// `kids[i]`, reading backward over attributes and outer comments, or
/// [`None`] when an attribute there silences the rule
pub open spec fn doc_scan(t: SyntaxTree, kids: Seq<usize>, i: int) -> Option<Seq<usize>>
    decreases i,
{
    if i <= 0 || i > kids.len() {
        Some(Seq::empty())
    } else {
        let s = kids[i - 1] as int;
        if kind_of(t, s) == "attribute_item"@ {
            if silences_spec(text_of(t, s)) {
                None
            } else {
                doc_scan(t, kids, i - 1)
            }
        } else if !is_comment_kind(kind_of(t, s)) {
            Some(Seq::empty())
        } else if field_child(t, s, "inner"@) is Some {
            Some(Seq::empty())
        } else {
            match field_child(t, s, "doc"@) {
                None => doc_scan(t, kids, i - 1),
                Some(d) => match doc_scan(t, kids, i - 1) {
                    None => None,
                    Some(ds) => Some(ds.push(d)),
                },
            }
        }
    }
}

/// The outer doc lines attached to item `n`, in source order, or [`None`]
/// when the rule must stay silent: no doc comment, or one out of reach
pub open spec fn doc_lines_spec(t: SyntaxTree, n: int) -> Option<Seq<Seq<char>>> {
    match t.parent_of(n) {
        None => None,
        Some(p) => match first_position(t.children_of(p as int), n as usize, 0) {
            None => None,
            Some(ix) => match doc_scan(t, t.children_of(p as int), ix) {
                None => None,
                Some(ds) => if lines_of(t, ds).len() == 0 {
                    None
                } else {
                    Some(lines_of(t, ds))
                },
            },
        },
    }
}

/// The first of `kids[k..]` that is a visibility modifier
pub open spec fn first_visibility(t: SyntaxTree, kids: Seq<usize>, k: int) -> Option<usize>
    decreases kids.len() - k,
{
    if k < 0 || k >= kids.len() {
        None
    } else if kind_of(t, kids[k] as int) == "visibility_modifier"@ {
        Some(kids[k])
    } else {
        first_visibility(t, kids, k + 1)
    }
}

/// Whether node `n` carries an unrestricted `pub`: its first visibility
/// modifier has no named child, as `pub(crate)` does
pub open spec fn public_spec(t: SyntaxTree, n: int) -> bool {
    match first_visibility(t, t.children_of(n), 0) {
        None => false,
        Some(v) => named_children_of(t, v as int).len() == 0,
    }
}

/// Whether the scopes around node `n` can expose it outside the crate: no
/// enclosing block or trait, and no enclosing module that is not `pub`
pub open spec fn public_scope(t: SyntaxTree, n: int) -> bool
    decreases n,
{
    match t.parent_of(n) {
        None => true,
        Some(p) => if p >= n || p < 0 {
            true
        } else if kind_of(t, p as int) == "block"@ || kind_of(t, p as int) == "trait_item"@ {
            false
        } else if kind_of(t, p as int) == "mod_item"@ && !public_spec(t, p as int) {
            false
        } else {
            public_scope(t, p as int)
        },
    }
}

/// Whether `m` encloses `n`: it is `n`'s parent, or encloses that parent
pub open spec fn encloses(t: SyntaxTree, m: int, n: int) -> bool
    decreases n,
{
    match t.parent_of(n) {
        None => false,
        Some(p) => 0 <= p < n && (p == m || encloses(t, m, p as int)),
    }
}

/// An item can leave the crate only when every module around it is bare
/// `pub` (`pub(crate)` and other restricted forms keep it in), and no block
/// or trait encloses it
pub proof fn law_public_scope_needs_public_modules(t: SyntaxTree, n: int, m: int)
    requires
        t.valid(),
        0 <= n < t.size(),
        encloses(t, m, n),
    ensures
        public_scope(t, n) && kind_of(t, m) == "mod_item"@ ==> public_spec(t, m),
        public_scope(t, n) ==> kind_of(t, m) != "block"@ && kind_of(t, m) != "trait_item"@,
    decreases n,
{
    t.lemma_parent(n);
    match t.parent_of(n) {
        None => {},
        Some(p) => {
            if p as int != m {
                law_public_scope_needs_public_modules(t, p as int, m);
            }
        },
    }
}

/// What the rule says of the item `name` of kind `kind`
pub open spec fn examples_message(kind: ItemKind, name: Seq<char>) -> Seq<char> {
    "public "@ + kind_word(kind) + " `"@ + name + "` has no `# Examples` section"@
}

/// What the rule reports of item `n` of kind `kind`
pub open spec fn item_findings(t: SyntaxTree, n: int, kind: ItemKind) -> Seq<
    (Seq<char>, Seq<char>, usize, usize),
> {
    if !public_spec(t, n) || !public_scope(t, n) {
        Seq::empty()
    } else {
        match doc_lines_spec(t, n) {
            None => Seq::empty(),
            Some(ls) => if heading_from(ls, 0, None) {
                Seq::empty()
            } else {
                match field_child(t, n, "name"@) {
                    None => Seq::empty(),
                    Some(nm) => {
                        seq![
                            (
                                "lint.missing-examples-doc"@,
                                examples_message(kind, text_of(t, nm as int)),
                                t.node_at(nm as int).start,
                                t.node_at(nm as int).end,
                            ),
                        ]
                    },
                }
            },
        }
    }
}

/// Returns whether an attribute puts the item's docs out of the rule's
/// reach
///
/// `#[doc(hidden)]` keeps the item out of the published documentation.
/// `#[doc = ...]` supplies the text from elsewhere, such as `include_str!`,
/// and the rule cannot read it.
pub fn silences_rule(text: &str) -> (r: bool)
    ensures
        r == silences_spec(text@),
{
    let s = chars_of(text);
    let mut kept: Vec<char> = Vec::new();
    let mut k: usize = 0;
    while k < s.len()
        invariant
            k <= s@.len(),
            kept@ == without_ws(s@.subrange(0, k as int)),
        decreases s@.len() - k,
    {
        assert(s@.subrange(0, k + 1).drop_last() =~= s@.subrange(0, k as int));
        if !is_whitespace(s[k]) {
            kept.push(s[k]);
        }
        k += 1;
    }
    assert(s@.subrange(0, s@.len() as int) =~= s@);
    let n = kept.len();
    assert(kept@.subrange(0, n as int) =~= kept@);
    let open = chars_of("#[doc");
    let a = match strip_prefix_at(kept.as_slice(), 0, n, open.as_slice()) {
        Some(a) => a,
        None => return false,
    };
    if a < n && kept[a] == '=' {
        return true;
    }
    let hidden = chars_of("(hidden)");
    let r = strip_prefix_at(kept.as_slice(), a, n, hidden.as_slice());
    r.is_some()
}

proof fn lemma_lines_of_prepend(t: SyntaxTree, d: usize, ds: Seq<usize>)
    ensures
        lines_of(t, seq![d] + ds) == text_lines(text_of(t, d as int)) + lines_of(t, ds),
    decreases ds.len(),
{
    if ds.len() == 0 {
        assert(seq![d] + ds =~= seq![d]);
        assert(seq![d].drop_last() =~= Seq::<usize>::empty());
        assert(text_lines(text_of(t, d as int)) + Seq::<Seq<char>>::empty() =~= text_lines(text_of(t, d as int)));
    } else {
        assert((seq![d] + ds).drop_last() =~= seq![d] + ds.drop_last());
        lemma_lines_of_prepend(t, d, ds.drop_last());
        assert(lines_of(t, seq![d] + ds) =~= text_lines(text_of(t, d as int)) + lines_of(t, ds));
    }
}

/// Returns the outer doc lines attached to an item, in source order
///
/// Returns [`None`] when the rule must stay silent: the item has no doc
/// comment, or an attribute puts the docs out of reach.
pub fn doc_lines<'a>(t: &'a SyntaxTree, node: usize) -> (r: Option<Vec<&'a str>>)
    requires
        t.valid(),
        node < t.size(),
    ensures
        match r {
            Some(v) => doc_lines_spec(*t, node as int) == Some(v@.map_values(|l: &str| l@)),
            None => doc_lines_spec(*t, node as int) is None,
        },
{
    let parent = match t.parent(node) {
        Some(p) => p,
        None => return None,
    };
    let kids = t.children(parent);
    let index = match position_of(kids, node) {
        Some(i) => i,
        None => return None,
    };
    let mut docs: Vec<usize> = Vec::new();
    let mut i = index;
    assert(Seq::<usize>::empty() + docs@ =~= docs@);
    loop
        invariant_except_break
            doc_scan(*t, kids@, index as int) == match doc_scan(*t, kids@, i as int) {
                None => None,
                Some(ds) => Some(ds + docs@),
            },
        invariant
            t.valid(),
            parent < t.size(),
            t.parent_of(node as int) == Some(parent),
            kids@ == t.children_of(parent as int),
            first_position(kids@, node, 0) == Some(index as int),
            forall|j: int| 0 <= j < kids@.len() ==> #[trigger] kids@[j] < t.size(),
            i <= index < kids@.len(),
            forall|j: int| 0 <= j < docs@.len() ==> #[trigger] docs@[j] < t.size(),
        ensures
            doc_scan(*t, kids@, index as int) == Some(docs@),
        decreases i,
    {
        if i == 0 {
            assert(Seq::<usize>::empty() + docs@ =~= docs@);
            break;
        }
        let s = kids[i - 1];
        if kind_is(t, s, "attribute_item") {
            if silences_rule(t.node(s).text.as_str()) {
                return None;
            }
        } else if !(kind_is(t, s, "line_comment") || kind_is(t, s, "block_comment")) {
            assert(Seq::<usize>::empty() + docs@ =~= docs@);
            break;
        } else if child_by_field_name(t, s, "inner").is_some() {
            assert(Seq::<usize>::empty() + docs@ =~= docs@);
            break;
        } else {
            match child_by_field_name(t, s, "doc") {
                Some(d) => {
                    let ghost before = docs@;
                    docs.insert(0, d);
                    proof {
                        assert(docs@ =~= seq![d] + before);
                        match doc_scan(*t, kids@, i - 1) {
                            Some(ds) => {
                                assert(ds.push(d) + before =~= ds + docs@);
                            },
                            None => {},
                        }
                    }
                },
                None => {},
            }
        }
        i -= 1;
    }
    let mut raw: Vec<DocLine<'a>> = Vec::new();
    let ghost mut done: Seq<usize> = Seq::empty();
    let mut k: usize = 0;
    while k < docs.len()
        invariant
            t.valid(),
            forall|j: int| 0 <= j < docs@.len() ==> #[trigger] docs@[j] < t.size(),
            k <= docs@.len(),
            line_views(raw@).map_values(|l: (Seq<char>, usize)| l.0) == lines_of(*t, docs@.subrange(0, k as int)),
        decreases docs@.len() - k,
    {
        let d = docs[k];
        let n = t.node(d);
        proof {
            t.lemma_ranges(d as int);
            assert(docs@.subrange(0, k + 1).drop_last() =~= docs@.subrange(0, k as int));
        }
        let ghost before = raw@;
        if n.text.as_str().len() > 0 {
            push_lines(&mut raw, n.text.as_str(), n.start, true);
            assert(line_views(raw@).map_values(|l: (Seq<char>, usize)| l.0) =~= line_views(before).map_values(
                |l: (Seq<char>, usize)| l.0,
            ) + text_lines(n.text@));
        } else {
            assert(n.text@.len() == 0);
            assert(text_lines(n.text@) =~= Seq::<Seq<char>>::empty());
            assert(lines_of(*t, docs@.subrange(0, k + 1)) =~= lines_of(*t, docs@.subrange(0, k as int)));
        }
        k += 1;
    }
    assert(docs@.subrange(0, docs@.len() as int) =~= docs@);
    if raw.len() == 0 {
        assert(lines_of(*t, docs@).len() == 0);
        return None;
    }
    let mut out: Vec<&'a str> = Vec::new();
    let mut m: usize = 0;
    while m < raw.len()
        invariant
            m <= raw@.len(),
            out@.len() == m,
            forall|j: int| 0 <= j < m ==> #[trigger] out@[j]@ == raw@[j].text@,
        decreases raw@.len() - m,
    {
        out.push(raw[m].text);
        m += 1;
    }
    assert(out@.map_values(|l: &str| l@) =~= line_views(raw@).map_values(|l: (Seq<char>, usize)| l.0));
    Some(out)
}

/// Returns whether an item carries an unrestricted `pub`
///
/// A `visibility_modifier` with a named child is a restricted form such as
/// `pub(crate)` or `pub(super)`, and no restricted form leaves the crate.
pub fn is_public(t: &SyntaxTree, node: usize) -> (r: bool)
    requires
        t.valid(),
        node < t.size(),
    ensures
        r == public_spec(*t, node as int),
{
    let kids = t.children(node);
    let mut k: usize = 0;
    while k < kids.len()
        invariant
            t.valid(),
            kids@ == t.children_of(node as int),
            forall|j: int| 0 <= j < kids@.len() ==> #[trigger] kids@[j] < t.size(),
            k <= kids@.len(),
            first_visibility(*t, kids@, 0) == first_visibility(*t, kids@, k as int),
        decreases kids@.len() - k,
    {
        if kind_is(t, kids[k], "visibility_modifier") {
            return named_children(t, kids[k]).len() == 0;
        }
        k += 1;
    }
    false
}

/// Returns whether an item's enclosing scopes can expose it outside the
/// crate
///
/// The walk stops at the first module that is not `pub`. A `pub use` in
/// another file can still re-export such an item; one file of source does
/// not show that, so the rule leaves the item alone.
pub fn in_public_scope(t: &SyntaxTree, node: usize) -> (r: bool)
    requires
        t.valid(),
        node < t.size(),
    ensures
        r == public_scope(*t, node as int),
{
    let mut current = node;
    loop
        invariant
            t.valid(),
            current < t.size(),
            public_scope(*t, node as int) == public_scope(*t, current as int),
        decreases current,
    {
        let p = match t.parent(current) {
            Some(p) => p,
            None => return true,
        };
        if kind_is(t, p, "block") || kind_is(t, p, "trait_item") {
            return false;
        }
        if kind_is(t, p, "mod_item") && !is_public(t, p) {
            return false;
        }
        current = p;
    }
}

impl MissingExamplesDoc {
    /// Checks an item of kind `kind`: a documented public item without an
    /// `# Examples` section gets a warning that points at its name
    pub fn check_item(&self, t: &SyntaxTree, node: usize, kind: ItemKind) -> (r: Vec<Diagnostic>)
        requires
            t.valid(),
            node < t.size(),
        ensures
            doc_lines_spec(*t, node as int) is None ==> r@.len() == 0,
            r@.len() <= 1,
            all_under(diag_views(r@), "lint.missing-examples-doc"@),
            diag_views(r@) == item_findings(*t, node as int, kind),
    {
        let mut out: Vec<Diagnostic> = Vec::new();
        assert(diag_views(out@) =~= Seq::empty());
        if !is_public(t, node) || !in_public_scope(t, node) {
            return out;
        }
        let lines = match doc_lines(t, node) {
            Some(l) => l,
            None => return out,
        };
        if has_examples_heading(lines.as_slice()) {
            return out;
        }
        let name = match child_by_field_name(t, node, "name") {
            Some(n) => n,
            None => return out,
        };
        let nm = t.node(name);
        let mut message = String::new();
        append(&mut message, "public ");
        append(&mut message, kind.as_str());
        append(&mut message, " `");
        append(&mut message, nm.text.as_str());
        append(&mut message, "` has no `# Examples` section");
        let d = Diagnostic::new("lint.missing-examples-doc", message, nm.start, nm.end);
        out.push(d);
        assert(diag_views(out@) =~= seq![diag_view(d)]);
        out
    }

    /// Checks a `const` item
    pub fn check_const_item(&self, t: &SyntaxTree, node: usize) -> (r: Vec<Diagnostic>)
        requires
            t.valid(),
            node < t.size(),
        ensures
            all_under(diag_views(r@), "lint.missing-examples-doc"@),
            diag_views(r@) == item_findings(*t, node as int, ItemKind::Constant),
    {
        self.check_item(t, node, ItemKind::Constant)
    }

    /// Checks an `enum` item
    pub fn check_enum_item(&self, t: &SyntaxTree, node: usize) -> (r: Vec<Diagnostic>)
        requires
            t.valid(),
            node < t.size(),
        ensures
            all_under(diag_views(r@), "lint.missing-examples-doc"@),
            diag_views(r@) == item_findings(*t, node as int, ItemKind::Enum),
    {
        self.check_item(t, node, ItemKind::Enum)
    }

    /// Checks a function
    pub fn check_function_item(&self, t: &SyntaxTree, node: usize) -> (r: Vec<Diagnostic>)
        requires
            t.valid(),
            node < t.size(),
        ensures
            all_under(diag_views(r@), "lint.missing-examples-doc"@),
            diag_views(r@) == item_findings(*t, node as int, ItemKind::Function),
    {
        self.check_item(t, node, ItemKind::Function)
    }

    /// Checks a `static` item
    pub fn check_static_item(&self, t: &SyntaxTree, node: usize) -> (r: Vec<Diagnostic>)
        requires
            t.valid(),
            node < t.size(),
        ensures
            all_under(diag_views(r@), "lint.missing-examples-doc"@),
            diag_views(r@) == item_findings(*t, node as int, ItemKind::Static),
    {
        self.check_item(t, node, ItemKind::Static)
    }

    /// Checks a `struct` item
    pub fn check_struct_item(&self, t: &SyntaxTree, node: usize) -> (r: Vec<Diagnostic>)
        requires
            t.valid(),
            node < t.size(),
        ensures
            all_under(diag_views(r@), "lint.missing-examples-doc"@),
            diag_views(r@) == item_findings(*t, node as int, ItemKind::Struct),
    {
        self.check_item(t, node, ItemKind::Struct)
    }

    /// Checks a `trait` item
    pub fn check_trait_item(&self, t: &SyntaxTree, node: usize) -> (r: Vec<Diagnostic>)
        requires
            t.valid(),
            node < t.size(),
        ensures
            all_under(diag_views(r@), "lint.missing-examples-doc"@),
            diag_views(r@) == item_findings(*t, node as int, ItemKind::Trait),
    {
        self.check_item(t, node, ItemKind::Trait)
    }

    /// Checks a `type` alias
    pub fn check_type_item(&self, t: &SyntaxTree, node: usize) -> (r: Vec<Diagnostic>)
        requires
            t.valid(),
            node < t.size(),
        ensures
            all_under(diag_views(r@), "lint.missing-examples-doc"@),
            diag_views(r@) == item_findings(*t, node as int, ItemKind::TypeAlias),
    {
        self.check_item(t, node, ItemKind::TypeAlias)
    }

    /// Checks a `union` item
    pub fn check_union_item(&self, t: &SyntaxTree, node: usize) -> (r: Vec<Diagnostic>)
        requires
            t.valid(),
            node < t.size(),
        ensures
            all_under(diag_views(r@), "lint.missing-examples-doc"@),
            diag_views(r@) == item_findings(*t, node as int, ItemKind::Union),
    {
        self.check_item(t, node, ItemKind::Union)
    }
}

} // verus!
