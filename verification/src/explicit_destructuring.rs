//! Flags a statement that reads two or more fields of one binding
//!
//! Repeated field access hides which parts of a value a statement needs. A
//! destructuring `let` names those parts once and shortens every use. The
//! rule counts reads inside a single statement, so the fix is one `let` line
//! above that statement. It stays quiet when the statement also names the
//! binding on its own, because the code still needs the whole value. It
//! ignores `self`, which tree-sitter does not parse as an identifier: a
//! method body reads `self.field` everywhere, and destructuring `self`
//! fights the borrow checker.
use vstd::prelude::*;

use crate::diagnostic::{all_under, diag_view, diag_views, Diagnostic};
use crate::syntax::{
    child_by_field_name, field_child, kind_is, kind_of, named_children, named_children_of, text_of,
    SyntaxTree,
};
use crate::text::{append, decimal, push_decimal, same_chars, chars_of};

verus! {

broadcast use vstd::seq_lib::group_seq_properties;

/// Flags statements that read several fields of one binding
pub struct ExplicitDestructuring;

/// Distinct fields one statement must read before the rule speaks
pub const FIELD_THRESHOLD: usize = 2;

/// What one statement reads of one binding, as plain values: the name, the
/// distinct fields in the order of their first read, the span where the
/// binding first appears, and whether the statement also needs the whole
/// binding
pub type Reads = (Seq<char>, Seq<Seq<char>>, usize, usize, bool);

/// The first index at or after `k` whose record names `name`
pub open spec fn find_record(st: Seq<Reads>, name: Seq<char>, k: int) -> Option<int>
    decreases st.len() - k,
{
    if k < 0 || k >= st.len() {
        None
    } else if st[k].0 == name {
        Some(k)
    } else {
        find_record(st, name, k + 1)
    }
}

/// The records with one for `name`, created at `start..end` when it is
/// new, and that record's index
pub open spec fn with_record(st: Seq<Reads>, name: Seq<char>, start: usize, end: usize) -> (Seq<Reads>, int) {
    match find_record(st, name, 0) {
        Some(i) => (st, i),
        None => (st.push((name, Seq::empty(), start, end, false)), st.len() as int),
    }
}

/// The records after noting that the statement needs `name` whole
pub open spec fn mark_whole(st: Seq<Reads>, name: Seq<char>, start: usize, end: usize) -> Seq<Reads> {
    let (s, i) = with_record(st, name, start, end);
    s.update(i, (s[i].0, s[i].1, s[i].2, s[i].3, true))
}

/// The records after noting a read of `field` from `name`
pub open spec fn add_field(
    st: Seq<Reads>,
    name: Seq<char>,
    start: usize,
    end: usize,
    field: Seq<char>,
) -> Seq<Reads> {
    let (s, i) = with_record(st, name, start, end);
    if s[i].1.contains(field) {
        s
    } else {
        s.update(i, (s[i].0, s[i].1.push(field), s[i].2, s[i].3, s[i].4))
    }
}

/// Whether `parent` holds `node` under the field called `name`
pub open spec fn holds_as(t: SyntaxTree, parent: int, name: Seq<char>, node: int) -> bool {
    field_child(t, parent, name) == Some(node as usize)
}

/// Whether identifier `n` is the value a field expression reads from
pub open spec fn field_base(t: SyntaxTree, n: int) -> bool {
    match t.parent_of(n) {
        None => false,
        Some(p) => kind_of(t, p as int) == "field_expression"@ && holds_as(t, p as int, "value"@, n),
    }
}

/// Whether node `n` names the function of a call, directly or behind a
/// turbofish
pub open spec fn call_target(t: SyntaxTree, n: int) -> bool {
    match t.parent_of(n) {
        None => false,
        Some(p) => (kind_of(t, p as int) == "generic_function"@ || kind_of(t, p as int)
            == "call_expression"@) && holds_as(t, p as int, "function"@, n),
    }
}

/// Whether node `n` is the assigned place of its parent
pub open spec fn assignment_target(t: SyntaxTree, n: int) -> bool {
    match t.parent_of(n) {
        None => false,
        Some(p) => (kind_of(t, p as int) == "assignment_expression"@ || kind_of(t, p as int)
            == "compound_assignment_expr"@) && holds_as(t, p as int, "left"@, n),
    }
}

/// The records after the walk visits node `n`
pub open spec fn step(t: SyntaxTree, st: Seq<Reads>, n: int) -> Seq<Reads> {
    let node = t.node_at(n);
    if kind_of(t, n) == "identifier"@ {
        if field_base(t, n) {
            st
        } else {
            mark_whole(st, text_of(t, n), node.start, node.end)
        }
    } else if kind_of(t, n) != "field_expression"@ {
        st
    } else {
        match field_child(t, n, "value"@) {
            None => st,
            Some(v) => if kind_of(t, v as int) != "identifier"@ {
                st
            } else if call_target(t, n) || assignment_target(t, n) {
                mark_whole(st, text_of(t, v as int), node.start, node.end)
            } else {
                match field_child(t, n, "field"@) {
                    None => st,
                    Some(f) => if kind_of(t, f as int) != "field_identifier"@ {
                        st
                    } else {
                        add_field(st, text_of(t, v as int), node.start, node.end, text_of(t, f as int))
                    },
                }
            },
        }
    }
}

/// The records after the walk visits `nodes` in order
pub open spec fn visit_all(t: SyntaxTree, st: Seq<Reads>, nodes: Seq<usize>) -> Seq<Reads>
    decreases nodes.len(),
{
    if nodes.len() == 0 {
        st
    } else {
        visit_all(t, step(t, st, nodes[0] as int), nodes.drop_first())
    }
}

/// The nodes a walk of one statement visits from node `n`, in pre-order,
/// without entering a nested `block`, which is a scope of its own
pub open spec fn walk(t: SyntaxTree, n: int) -> Seq<usize>
    decreases t.size() - n, 1int, 0int,
{
    seq![n as usize] + walk_kids(t, n, named_children_of(t, n), 0)
}

/// The nodes a walk visits below `kids[k..]`, the named children of `n`
pub open spec fn walk_kids(t: SyntaxTree, n: int, kids: Seq<usize>, k: int) -> Seq<usize>
    decreases t.size() - n, 0int, kids.len() - k,
{
    if k < 0 || k >= kids.len() {
        Seq::empty()
    } else if n < kids[k] < t.size() && kind_of(t, kids[k] as int) != "block"@ {
        walk(t, kids[k] as int) + walk_kids(t, n, kids, k + 1)
    } else {
        walk_kids(t, n, kids, k + 1)
    }
}

/// What one statement reads, binding by binding
pub open spec fn statement_reads(t: SyntaxTree, s: int) -> Seq<Reads> {
    visit_all(t, Seq::empty(), walk(t, s))
}

/// What the rule says of `count` fields read from `name`
pub open spec fn reads_message(count: nat, name: Seq<char>, in_loop: bool) -> Seq<char> {
    "this statement reads "@ + decimal(count) + " fields of `"@ + name + "`; destructure `"@ + name
        + if in_loop {
        "` in the `for` pattern"@
    } else {
        "`"@
    }
}

/// The findings for the records `st[..k]`, given the name the enclosing
/// `for` loop binds
pub open spec fn reads_findings(st: Seq<Reads>, k: int, loop_name: Option<Seq<char>>) -> Seq<
    (Seq<char>, Seq<char>, usize, usize),
>
    decreases k,
{
    if k <= 0 || k > st.len() {
        Seq::empty()
    } else {
        let rest = reads_findings(st, k - 1, loop_name);
        let r = st[k - 1];
        if r.4 || r.1.len() < FIELD_THRESHOLD {
            rest
        } else {
            rest.push(
                (
                    "lint.explicit-destructuring"@,
                    reads_message(r.1.len(), r.0, loop_name == Some(r.0)),
                    r.2,
                    r.3,
                ),
            )
        }
    }
}

/// The name pattern `p` binds, when it binds exactly one, looking through
/// `mut`, `ref`, and `&` wrappers
pub open spec fn bound_name_spec(t: SyntaxTree, p: int) -> Option<Seq<char>>
    decreases t.size() - p,
{
    let k = kind_of(t, p);
    if k == "identifier"@ {
        Some(text_of(t, p))
    } else if k != "mut_pattern"@ && k != "ref_pattern"@ && k != "reference_pattern"@ {
        None
    } else {
        let kids = named_children_of(t, p);
        if kids.len() == 0 {
            None
        } else if p < kids.last() < t.size() {
            bound_name_spec(t, kids.last() as int)
        } else {
            None
        }
    }
}

/// The name the `for` loop binds when block `b` is that loop's body
pub open spec fn loop_binding(t: SyntaxTree, b: int) -> Option<Seq<char>> {
    match t.parent_of(b) {
        None => None,
        Some(p) => if kind_of(t, p as int) != "for_expression"@ || !holds_as(t, p as int, "body"@, b) {
            None
        } else {
            match field_child(t, p as int, "pattern"@) {
                None => None,
                Some(pat) => bound_name_spec(t, pat as int),
            }
        },
    }
}

/// The findings for the statements among `stmts[..k]`
pub open spec fn block_findings_upto(
    t: SyntaxTree,
    stmts: Seq<usize>,
    k: int,
    loop_name: Option<Seq<char>>,
) -> Seq<(Seq<char>, Seq<char>, usize, usize)>
    decreases k,
{
    if k <= 0 || k > stmts.len() {
        Seq::empty()
    } else {
        let rest = block_findings_upto(t, stmts, k - 1, loop_name);
        if kind_of(t, stmts[k - 1] as int) == "block"@ {
            rest
        } else {
            let st = statement_reads(t, stmts[k - 1] as int);
            rest + reads_findings(st, st.len() as int, loop_name)
        }
    }
}

/// What the rule reports of the `block` node `b`
pub open spec fn block_findings(t: SyntaxTree, b: int) -> Seq<(Seq<char>, Seq<char>, usize, usize)> {
    let stmts = named_children_of(t, b);
    block_findings_upto(t, stmts, stmts.len() as int, loop_binding(t, b))
}

pub proof fn lemma_visit_all_concat(t: SyntaxTree, st: Seq<Reads>, a: Seq<usize>, b: Seq<usize>)
    ensures
        visit_all(t, st, a + b) == visit_all(t, visit_all(t, st, a), b),
    decreases a.len(),
{
    if a.len() > 0 {
        assert((a + b).drop_first() =~= a.drop_first() + b);
        lemma_visit_all_concat(t, step(t, st, a[0] as int), a.drop_first(), b);
    } else {
        assert(a + b =~= b);
    }
}

/// Whether the records name each binding once and list each field once
pub open spec fn distinct_records(st: Seq<Reads>) -> bool {
    &&& forall|i: int, j: int| 0 <= i < j < st.len() ==> (#[trigger] st[i]).0 != (#[trigger] st[j]).0
    &&& forall|i: int| 0 <= i < st.len() ==> (#[trigger] st[i]).1.no_duplicates()
}

/// Whether `after` extends `before` by at most one record, each old record
/// keeping its name and span and its fields in their order, and only
/// gaining fields or the need for the whole binding
pub open spec fn grows_from(before: Seq<Reads>, after: Seq<Reads>) -> bool {
    &&& before.len() <= after.len() <= before.len() + 1
    &&& forall|i: int|
        0 <= i < before.len() ==> {
            &&& (#[trigger] after[i]).0 == before[i].0
            &&& after[i].2 == before[i].2
            &&& after[i].3 == before[i].3
            &&& before[i].1.len() <= after[i].1.len()
            &&& after[i].1.subrange(0, before[i].1.len() as int) == before[i].1
            &&& (before[i].4 ==> after[i].4)
        }
}

proof fn lemma_find_record(st: Seq<Reads>, name: Seq<char>, k: int)
    requires
        0 <= k,
    ensures
        match find_record(st, name, k) {
            Some(i) => k <= i < st.len() && st[i].0 == name,
            None => forall|j: int| k <= j < st.len() ==> (#[trigger] st[j]).0 != name,
        },
    decreases st.len() - k,
{
    if k < st.len() && st[k].0 != name {
        lemma_find_record(st, name, k + 1);
    }
}

proof fn lemma_with_record(st: Seq<Reads>, name: Seq<char>, start: usize, end: usize)
    requires
        distinct_records(st),
    ensures
        distinct_records(with_record(st, name, start, end).0),
        grows_from(st, with_record(st, name, start, end).0),
        0 <= with_record(st, name, start, end).1 < with_record(st, name, start, end).0.len(),
        with_record(st, name, start, end).0[with_record(st, name, start, end).1].0 == name,
{
    lemma_find_record(st, name, 0);
    let (s, i) = with_record(st, name, start, end);
    assert forall|j: int| 0 <= j < st.len() implies (#[trigger] s[j]).1.subrange(0, st[j].1.len() as int) == st[j].1 by {
        assert(s[j] == st[j]);
        assert(st[j].1.subrange(0, st[j].1.len() as int) =~= st[j].1);
    }
    if find_record(st, name, 0) is None {
        assert(Seq::<Seq<char>>::empty().no_duplicates());
        assert forall|a: int, b: int| 0 <= a < b < s.len() implies (#[trigger] s[a]).0 != (#[trigger] s[b]).0 by {
            if b == st.len() {
                assert(st[a].0 != name);
            } else {
                assert(s[a] == st[a] && s[b] == st[b]);
            }
        }
    }
}

proof fn lemma_push_keeps_distinct(fs: Seq<Seq<char>>, x: Seq<char>)
    requires
        fs.no_duplicates(),
        !fs.contains(x),
    ensures
        fs.push(x).no_duplicates(),
{
    assert forall|a: int, b: int| 0 <= a < fs.push(x).len() && 0 <= b < fs.push(x).len() && a != b implies fs.push(x)[a]
        != fs.push(x)[b] by {
        if a < fs.len() && b < fs.len() {
        } else if a == fs.len() {
            assert(fs.push(x)[b] == fs[b]);
        } else {
            assert(fs.push(x)[a] == fs[a]);
        }
    }
}

/// Each step of the walk keeps the records distinct, by name and by field,
/// and only extends them: at most one new record, every old one keeping its
/// name, span, and fields, and only gaining fields or the need for the
/// whole binding
pub proof fn law_step_keeps_records_distinct(t: SyntaxTree, st: Seq<Reads>, n: int)
    requires
        distinct_records(st),
    ensures
        distinct_records(step(t, st, n)),
        grows_from(st, step(t, st, n)),
{
    let node = t.node_at(n);
    let after = step(t, st, n);
    assert forall|j: int| 0 <= j < st.len() implies st[j].1.subrange(0, st[j].1.len() as int) == st[j].1 by {
        assert(st[j].1.subrange(0, st[j].1.len() as int) =~= st[j].1);
    }
    if after == st {
    } else {
        let (name, field, whole) = if kind_of(t, n) == "identifier"@ {
            (text_of(t, n), Seq::<char>::empty(), true)
        } else {
            let v = field_child(t, n, "value"@).unwrap();
            if call_target(t, n) || assignment_target(t, n) {
                (text_of(t, v as int), Seq::<char>::empty(), true)
            } else {
                (text_of(t, v as int), text_of(t, field_child(t, n, "field"@).unwrap() as int), false)
            }
        };
        lemma_with_record(st, name, node.start, node.end);
        let (s, i) = with_record(st, name, node.start, node.end);
        if whole {
            assert(after == s.update(i, (s[i].0, s[i].1, s[i].2, s[i].3, true)));
            assert forall|a: int, b: int| 0 <= a < b < after.len() implies (#[trigger] after[a]).0 != (#[trigger] after[b]).0 by {
                assert(after[a].0 == s[a].0 && after[b].0 == s[b].0);
            }
            assert forall|a: int| 0 <= a < after.len() implies (#[trigger] after[a]).1.no_duplicates() by {
                assert(after[a].1 == s[a].1);
            }
            assert forall|j: int| 0 <= j < st.len() implies (#[trigger] after[j]).1.subrange(0, st[j].1.len() as int) == st[j].1 by {
                assert(after[j].1 == s[j].1);
            }
        } else if s[i].1.contains(field) {
            assert(after == s);
        } else {
            assert(after == s.update(i, (s[i].0, s[i].1.push(field), s[i].2, s[i].3, s[i].4)));
            lemma_push_keeps_distinct(s[i].1, field);
            assert forall|a: int, b: int| 0 <= a < b < after.len() implies (#[trigger] after[a]).0 != (#[trigger] after[b]).0 by {
                assert(after[a].0 == s[a].0 && after[b].0 == s[b].0);
            }
            assert forall|a: int| 0 <= a < after.len() implies (#[trigger] after[a]).1.no_duplicates() by {
                if a != i {
                    assert(after[a].1 == s[a].1);
                }
            }
            assert forall|j: int| 0 <= j < st.len() implies (#[trigger] after[j]).1.subrange(0, st[j].1.len() as int) == st[j].1 by {
                if j == i {
                    assert(s[j].1.push(field).subrange(0, st[j].1.len() as int) =~= s[j].1.subrange(0, st[j].1.len() as int));
                } else {
                    assert(after[j].1 == s[j].1);
                }
            }
        }
    }
}

proof fn lemma_visit_all_distinct(t: SyntaxTree, st: Seq<Reads>, nodes: Seq<usize>)
    requires
        distinct_records(st),
    ensures
        distinct_records(visit_all(t, st, nodes)),
    decreases nodes.len(),
{
    if nodes.len() > 0 {
        law_step_keeps_records_distinct(t, st, nodes[0] as int);
        lemma_visit_all_distinct(t, step(t, st, nodes[0] as int), nodes.drop_first());
    }
}

/// What one statement reads names each binding once and lists each field
/// once, so the rule reports a binding at most once per statement
pub proof fn law_statement_reads_distinct(t: SyntaxTree, s: int)
    ensures
        distinct_records(statement_reads(t, s)),
{
    lemma_visit_all_distinct(t, Seq::empty(), walk(t, s));
}

/// What one statement reads of one binding
struct BindingReads {
    name: String,
    fields: Vec<String>,
    start: usize,
    end: usize,
    used_whole: bool,
}

spec fn reads_view(b: BindingReads) -> Reads {
    (b.name@, b.fields@.map_values(|f: String| f@), b.start, b.end, b.used_whole)
}

spec fn reads_views(v: Seq<BindingReads>) -> Seq<Reads> {
    v.map_values(|b: BindingReads| reads_view(b))
}

fn same_text(a: &str, b: &str) -> (r: bool)
    ensures
        r == (a@ == b@),
{
    let x = chars_of(a);
    let y = chars_of(b);
    same_chars(x.as_slice(), y.as_slice())
}

/// Returns the index of the record for `name`, creating it at
/// `start..end` when it is new
fn entry(reads: &mut Vec<BindingReads>, name: &str, start: usize, end: usize) -> (r: usize)
    ensures
        (reads_views(final(reads)@), r as int) == with_record(reads_views(old(reads)@), name@, start, end),
        r < final(reads)@.len(),
{
    let ghost st = reads_views(reads@);
    let mut k: usize = 0;
    while k < reads.len()
        invariant
            st == reads_views(reads@),
            k <= reads@.len(),
            find_record(st, name@, 0) == find_record(st, name@, k as int),
        decreases reads@.len() - k,
    {
        if same_text(reads[k].name.as_str(), name) {
            return k;
        }
        k += 1;
    }
    let b = BindingReads { name: name.to_owned(), fields: Vec::new(), start, end, used_whole: false };
    reads.push(b);
    assert(reads_view(b).1 =~= Seq::<Seq<char>>::empty());
    assert(reads_views(reads@) =~= st.push((name@, Seq::empty(), start, end, false)));
    reads.len() - 1
}

/// Notes that the statement needs `name` whole
fn note_whole(reads: &mut Vec<BindingReads>, name: &str, start: usize, end: usize)
    ensures
        reads_views(final(reads)@) == mark_whole(reads_views(old(reads)@), name@, start, end),
{
    let i = entry(reads, name, start, end);
    let ghost s = reads_views(reads@);
    reads[i].used_whole = true;
    assert(reads_views(reads@) =~= s.update(i as int, (s[i as int].0, s[i as int].1, s[i as int].2, s[i as int].3, true)));
}

/// Notes a read of `field` from `name`
fn note_field(reads: &mut Vec<BindingReads>, name: &str, start: usize, end: usize, field: &str)
    ensures
        reads_views(final(reads)@) == add_field(reads_views(old(reads)@), name@, start, end, field@),
{
    let i = entry(reads, name, start, end);
    let ghost s = reads_views(reads@);
    let ghost fs = s[i as int].1;
    let n = reads[i].fields.len();
    let mut k: usize = 0;
    while k < n
        invariant
            i < reads@.len(),
            (s, i as int) == with_record(reads_views(old(reads)@), name@, start, end),
            s == reads_views(reads@),
            fs == s[i as int].1,
            n == reads@[i as int].fields@.len(),
            k <= n,
            forall|j: int| 0 <= j < k ==> fs[j] != field@,
        decreases n - k,
    {
        assert(fs[k as int] == reads@[i as int].fields@[k as int]@);
        if same_text(reads[i].fields[k].as_str(), field) {
            assert(fs[k as int] == field@);
            assert(fs.contains(field@));
            return;
        }
        k += 1;
    }
    assert(!fs.contains(field@));
    let ghost old_fields = reads@[i as int].fields@;
    let owned = field.to_owned();
    assert(owned@ == field@);
    reads[i].fields.push(owned);
    assert(reads@[i as int].fields@ == old_fields.push(owned));
    assert(reads@[i as int].fields@.map_values(|f: String| f@) =~= fs.push(field@));
    assert(reads_views(reads@) =~= s.update(i as int, (s[i as int].0, fs.push(field@), s[i as int].2, s[i as int].3, s[i as int].4)));
}

/// Returns whether `parent` holds `node` under the field called `name`
fn is_field(t: &SyntaxTree, parent: usize, name: &str, node: usize) -> (r: bool)
    requires
        t.valid(),
        parent < t.size(),
    ensures
        r == holds_as(*t, parent as int, name@, node as int),
{
    match child_by_field_name(t, parent, name) {
        Some(c) => c == node,
        None => false,
    }
}

/// Returns whether `node` is the value a field expression reads from
pub fn is_field_base(t: &SyntaxTree, node: usize) -> (r: bool)
    requires
        t.valid(),
        node < t.size(),
    ensures
        r == field_base(*t, node as int),
{
    match t.parent(node) {
        Some(p) => kind_is(t, p, "field_expression") && is_field(t, p, "value", node),
        None => false,
    }
}

/// Returns whether `node` names the function of a call
///
/// A method call reads no field: `user.name()` runs `name`, and it needs
/// the whole `user`. The turbofish form puts a `generic_function` between
/// the call and the field expression.
pub fn is_call_target(t: &SyntaxTree, node: usize) -> (r: bool)
    requires
        t.valid(),
        node < t.size(),
    ensures
        r == call_target(*t, node as int),
{
    match t.parent(node) {
        Some(p) => (kind_is(t, p, "generic_function") || kind_is(t, p, "call_expression")) && is_field(
            t,
            p,
            "function",
            node,
        ),
        None => false,
    }
}

/// Returns whether `node` is the assigned place of its parent
pub fn is_assignment_target(t: &SyntaxTree, node: usize) -> (r: bool)
    requires
        t.valid(),
        node < t.size(),
    ensures
        r == assignment_target(*t, node as int),
{
    match t.parent(node) {
        Some(p) => (kind_is(t, p, "assignment_expression") || kind_is(t, p, "compound_assignment_expr"))
            && is_field(t, p, "left", node),
        None => false,
    }
}

/// Records the field this node reads, or marks its binding as used whole
fn record(t: &SyntaxTree, n: usize, reads: &mut Vec<BindingReads>)
    requires
        t.valid(),
        n < t.size(),
    ensures
        reads_views(final(reads)@) == step(*t, reads_views(old(reads)@), n as int),
        distinct_records(reads_views(old(reads)@)) ==> distinct_records(reads_views(final(reads)@))
            && grows_from(reads_views(old(reads)@), reads_views(final(reads)@)),
{
    proof {
        if distinct_records(reads_views(reads@)) {
            law_step_keeps_records_distinct(*t, reads_views(reads@), n as int);
        }
    }
    let node = t.node(n);
    if kind_is(t, n, "identifier") {
        if !is_field_base(t, n) {
            note_whole(reads, node.text.as_str(), node.start, node.end);
        }
        return;
    }
    if !kind_is(t, n, "field_expression") {
        return;
    }
    let v = match child_by_field_name(t, n, "value") {
        Some(v) => v,
        None => return,
    };
    if !kind_is(t, v, "identifier") {
        return;
    }
    let name = t.node(v).text.as_str();
    if is_call_target(t, n) || is_assignment_target(t, n) {
        note_whole(reads, name, node.start, node.end);
        return;
    }
    let f = match child_by_field_name(t, n, "field") {
        Some(f) => f,
        None => return,
    };
    if !kind_is(t, f, "field_identifier") {
        return;
    }
    note_field(reads, name, node.start, node.end, t.node(f).text.as_str());
}

/// Walks one statement from node `n` and records what it reads
///
/// The walk stops at a nested `block`, because that block is a scope of its
/// own and gets its own check.
fn collect(t: &SyntaxTree, n: usize, reads: &mut Vec<BindingReads>)
    requires
        t.valid(),
        n < t.size(),
    ensures
        reads_views(final(reads)@) == visit_all(*t, reads_views(old(reads)@), walk(*t, n as int)),
    decreases t.size() - n,
{
    let ghost start = reads_views(reads@);
    record(t, n, reads);
    let kids = named_children(t, n);
    proof {
        assert(walk(*t, n as int) == seq![n] + walk_kids(*t, n as int, kids@, 0));
        lemma_visit_all_concat(*t, start, seq![n], walk_kids(*t, n as int, kids@, 0));
        assert(seq![n].drop_first() =~= Seq::<usize>::empty());
        assert(visit_all(*t, step(*t, start, n as int), Seq::<usize>::empty()) == step(*t, start, n as int));
        assert(visit_all(*t, start, seq![n]) == step(*t, start, n as int));
    }
    let mut k: usize = 0;
    while k < kids.len()
        invariant
            t.valid(),
            n < t.size(),
            kids@ == named_children_of(*t, n as int),
            forall|j: int| 0 <= j < kids@.len() ==> n < #[trigger] kids@[j] < t.size(),
            k <= kids@.len(),
            visit_all(*t, start, walk(*t, n as int)) == visit_all(
                *t,
                reads_views(reads@),
                walk_kids(*t, n as int, kids@, k as int),
            ),
        decreases kids@.len() - k,
    {
        let c = kids[k];
        if !kind_is(t, c, "block") {
            let ghost before = reads_views(reads@);
            proof {
                lemma_visit_all_concat(*t, before, walk(*t, c as int), walk_kids(*t, n as int, kids@, k + 1));
            }
            collect(t, c, reads);
        }
        k += 1;
    }
}

/// Returns the name a pattern binds, when it binds exactly one
///
/// A binding mode wraps the name it introduces: `mut e` parses as a
/// `mut_pattern`, `ref e` as a `ref_pattern`, and `&e` as a
/// `reference_pattern`. Each still binds the whole item under one name, so
/// the search looks through the wrapper. A pattern that already
/// destructures binds no single name.
pub fn bound_name<'a>(t: &'a SyntaxTree, p: usize) -> (r: Option<&'a str>)
    requires
        t.valid(),
        p < t.size(),
    ensures
        match r {
            Some(s) => bound_name_spec(*t, p as int) == Some(s@),
            None => bound_name_spec(*t, p as int) is None,
        },
    decreases t.size() - p,
{
    if kind_is(t, p, "identifier") {
        return Some(t.node(p).text.as_str());
    }
    if !kind_is(t, p, "mut_pattern") && !kind_is(t, p, "ref_pattern") && !kind_is(t, p, "reference_pattern") {
        return None;
    }
    let kids = named_children(t, p);
    if kids.len() == 0 {
        return None;
    }
    bound_name(t, kids[kids.len() - 1])
}

/// Returns the name a `for` loop binds, when `block` is that loop's body
///
/// The name is absent when the loop already destructures, because then the
/// advice has nothing left to suggest.
pub fn for_pattern_binding<'a>(t: &'a SyntaxTree, block: usize) -> (r: Option<&'a str>)
    requires
        t.valid(),
        block < t.size(),
    ensures
        match r {
            Some(s) => loop_binding(*t, block as int) == Some(s@),
            None => loop_binding(*t, block as int) is None,
        },
{
    let p = match t.parent(block) {
        Some(p) => p,
        None => return None,
    };
    if !kind_is(t, p, "for_expression") || !is_field(t, p, "body", block) {
        return None;
    }
    match child_by_field_name(t, p, "pattern") {
        Some(pat) => bound_name(t, pat),
        None => None,
    }
}

/// Turns the records into diagnostics, in the order the bindings first
/// appear
fn diagnose_all(reads: &Vec<BindingReads>, loop_name: Option<&str>, out: &mut Vec<Diagnostic>)
    ensures
        all_under(diag_views(old(out)@), "lint.explicit-destructuring"@) ==> all_under(diag_views(final(out)@), "lint.explicit-destructuring"@),
        diag_views(final(out)@) == diag_views(old(out)@) + reads_findings(
            reads_views(reads@),
            reads@.len() as int,
            match loop_name {
                Some(s) => Some(s@),
                None => None,
            },
        ),
{
    let ghost ln = match loop_name {
        Some(s) => Some(s@),
        None => None,
    };
    let ghost st = reads_views(reads@);
    let ghost base = diag_views(out@);
    let mut k: usize = 0;
    while k < reads.len()
        invariant
            st == reads_views(reads@),
            ln == match loop_name {
                Some(s) => Some(s@),
                None => None::<Seq<char>>,
            },
            k <= reads@.len(),
            diag_views(out@) == base + reads_findings(st, k as int, ln),
            all_under(base, "lint.explicit-destructuring"@) ==> all_under(diag_views(out@), "lint.explicit-destructuring"@),
        decreases reads@.len() - k,
    {
        let b = &reads[k];
        assert(st[k as int] == reads_view(*b));
        let count = b.fields.len();
        if !b.used_whole && count >= FIELD_THRESHOLD {
            let in_loop = match loop_name {
                Some(s) => same_text(s, b.name.as_str()),
                None => false,
            };
            let mut message = String::new();
            append(&mut message, "this statement reads ");
            push_decimal(&mut message, count);
            append(&mut message, " fields of `");
            append(&mut message, b.name.as_str());
            append(&mut message, "`; destructure `");
            append(&mut message, b.name.as_str());
            if in_loop {
                append(&mut message, "` in the `for` pattern");
            } else {
                append(&mut message, "`");
            }
            assert(message@ == reads_message(count as nat, b.name@, ln == Some(b.name@)));
            let d = Diagnostic::new("lint.explicit-destructuring", message, b.start, b.end);
            let ghost before = diag_views(out@);
            out.push(d);
            assert(diag_views(out@) =~= before.push(diag_view(d)));
            assert(diag_views(out@)[diag_views(out@).len() - 1] == diag_view(d));
        }
        k += 1;
    }
}

/// Reports every binding the statement `s` reads too many fields from
///
/// Diagnostics come out in the order the bindings first appear.
fn check_statement(t: &SyntaxTree, s: usize, loop_name: Option<&str>, out: &mut Vec<Diagnostic>)
    requires
        t.valid(),
        s < t.size(),
    ensures
        all_under(diag_views(old(out)@), "lint.explicit-destructuring"@) ==> all_under(diag_views(final(out)@), "lint.explicit-destructuring"@),
        diag_views(final(out)@) == diag_views(old(out)@) + reads_findings(
            statement_reads(*t, s as int),
            statement_reads(*t, s as int).len() as int,
            match loop_name {
                Some(x) => Some(x@),
                None => None,
            },
        ),
{
    let mut reads: Vec<BindingReads> = Vec::new();
    assert(reads_views(reads@) =~= Seq::empty());
    collect(t, s, &mut reads);
    diagnose_all(&reads, loop_name, out);
}

impl ExplicitDestructuring {
    /// Checks one `block`: each statement that reads two or more fields of a
    /// binding, and does not need the binding whole, gets a warning per
    /// binding
    pub fn check_block(&self, t: &SyntaxTree, block: usize) -> (r: Vec<Diagnostic>)
        requires
            t.valid(),
            block < t.size(),
        ensures
            all_under(diag_views(r@), "lint.explicit-destructuring"@),
            diag_views(r@) == block_findings(*t, block as int),
    {
        let loop_name = for_pattern_binding(t, block);
        let ghost ln = match loop_name {
            Some(s) => Some(s@),
            None => None,
        };
        let stmts = named_children(t, block);
        let mut out: Vec<Diagnostic> = Vec::new();
        assert(diag_views(out@) =~= Seq::empty());
        let mut k: usize = 0;
        while k < stmts.len()
            invariant
                t.valid(),
                stmts@ == named_children_of(*t, block as int),
                forall|j: int| 0 <= j < stmts@.len() ==> #[trigger] stmts@[j] < t.size(),
                ln == loop_binding(*t, block as int),
                ln == match loop_name {
                    Some(s) => Some(s@),
                    None => None::<Seq<char>>,
                },
                k <= stmts@.len(),
                diag_views(out@) == block_findings_upto(*t, stmts@, k as int, ln),
                all_under(diag_views(out@), "lint.explicit-destructuring"@),
            decreases stmts@.len() - k,
        {
            let s = stmts[k];
            if !kind_is(t, s, "block") {
                check_statement(t, s, loop_name, &mut out);
            }
            k += 1;
        }
        out
    }
}

} // verus!
