//! The scan of one file: the types it defines and the traits its tests prove
//!
//! The scan gathers bounded helper functions and the turbofish calls tests
//! make, the type definitions that need tests, and the negative tests that
//! excuse a type from a trait. Resolving the calls against the helpers turns
//! them into proof, and the report names each type that still lacks one of
//! the three tests.
use vstd::prelude::*;

use crate::diagnostic::{all_under, diag_view, diag_views, Diagnostic};
use crate::missing_trait_tests::{
    backticked, backticked_names, comment_body, comment_text, is_test_attribute, is_test_target,
    join_traits, joined_traits, mentions_test, negative_prefix, test_attribute,
    test_target, trait_of_bound, cfg_mentions_test, AutoTrait, views,
};
use crate::syntax::{
    child_by_field_name, field_child, kind_is, kind_of, named_children, named_children_of, text_of,
    SyntaxTree,
};
use crate::text::{append, chars_of, matches_at, same_chars, starts_with, trim, trim_at};

verus! {

broadcast use vstd::seq_lib::group_seq_properties;

/// A set of the three auto traits
#[derive(Clone, Copy, Debug, PartialEq, Eq, Structural)]
pub struct TraitSet {
    pub send: bool,
    pub sync: bool,
    pub unpin: bool,
}

/// The empty set
pub open spec fn no_traits() -> TraitSet {
    TraitSet { send: false, sync: false, unpin: false }
}

/// Whether `s` holds `t`
pub open spec fn has_trait(s: TraitSet, t: AutoTrait) -> bool {
    match t {
        AutoTrait::Send => s.send,
        AutoTrait::Sync => s.sync,
        AutoTrait::Unpin => s.unpin,
    }
}

/// `s` with `t` added
pub open spec fn with_trait(s: TraitSet, t: AutoTrait) -> TraitSet {
    match t {
        AutoTrait::Send => TraitSet { send: true, ..s },
        AutoTrait::Sync => TraitSet { sync: true, ..s },
        AutoTrait::Unpin => TraitSet { unpin: true, ..s },
    }
}

/// The union of two sets
pub open spec fn union(a: TraitSet, b: TraitSet) -> TraitSet {
    TraitSet { send: a.send || b.send, sync: a.sync || b.sync, unpin: a.unpin || b.unpin }
}

/// Whether a set is empty
pub open spec fn is_empty_set(s: TraitSet) -> bool {
    !s.send && !s.sync && !s.unpin
}

/// Whether a container holds shipped items or items that only tests use
#[derive(Clone, Copy, Debug, PartialEq, Eq, Structural)]
pub enum Scope {
    Shipped,
    Test,
}

/// A name with the traits recorded for it
pub type Entry = (Seq<char>, TraitSet);

/// A turbofish call: the callee's name and the types it names
pub type CallView = (Seq<char>, Seq<Seq<char>>);

/// A type that needs trait tests: its name and the span of the name
pub type CandidateView = (Seq<char>, usize, usize);

/// Whether a node kind is a comment
pub open spec fn comment_kind(k: Seq<char>) -> bool {
    k == "line_comment"@ || k == "block_comment"@
}

/// The auto traits the bounds among `bs[..k]` name
pub open spec fn bounds_fold(t: SyntaxTree, bs: Seq<usize>, k: int) -> TraitSet
    decreases k,
{
    if k <= 0 || k > bs.len() {
        no_traits()
    } else {
        let s = bounds_fold(t, bs, k - 1);
        match trait_of_bound(text_of(t, bs[k - 1] as int)) {
            Some(tr) => with_trait(s, tr),
            None => s,
        }
    }
}

/// The auto traits under the `bounds` field of node `e`
pub open spec fn bound_traits(t: SyntaxTree, e: int) -> TraitSet {
    match field_child(t, e, "bounds"@) {
        None => no_traits(),
        Some(b) => bounds_fold(t, named_children_of(t, b as int), named_children_of(t, b as int).len() as int),
    }
}

/// The auto traits the entries `es[..k]` bound
pub open spec fn entries_fold(t: SyntaxTree, es: Seq<usize>, k: int) -> TraitSet
    decreases k,
{
    if k <= 0 || k > es.len() {
        no_traits()
    } else {
        union(entries_fold(t, es, k - 1), bound_traits(t, es[k - 1] as int))
    }
}

/// The auto traits the generics among `kids[..k]` bound, inline or in a
/// `where` clause
pub open spec fn generics_fold(t: SyntaxTree, kids: Seq<usize>, k: int) -> TraitSet
    decreases k,
{
    if k <= 0 || k > kids.len() {
        no_traits()
    } else {
        let s = generics_fold(t, kids, k - 1);
        let c = kids[k - 1] as int;
        if kind_of(t, c) == "type_parameters"@ || kind_of(t, c) == "where_clause"@ {
            union(s, entries_fold(t, named_children_of(t, c), named_children_of(t, c).len() as int))
        } else {
            s
        }
    }
}

/// The helper the function `item` declares: its name with the auto traits
/// its generics bound, when it bounds any
pub open spec fn helper_of(t: SyntaxTree, item: int) -> Seq<Entry> {
    match field_child(t, item, "name"@) {
        None => Seq::empty(),
        Some(nm) => {
            let tr = generics_fold(t, named_children_of(t, item), named_children_of(t, item).len() as int);
            if is_empty_set(tr) {
                Seq::empty()
            } else {
                seq![(text_of(t, nm as int), tr)]
            }
        },
    }
}

/// The final segment of a path expression, such as the `f` in `a::f`
pub open spec fn last_segment(t: SyntaxTree, f: int) -> Option<Seq<char>> {
    if kind_of(t, f) == "identifier"@ {
        Some(text_of(t, f))
    } else if kind_of(t, f) == "scoped_identifier"@ {
        match field_child(t, f, "name"@) {
            Some(nm) => Some(text_of(t, nm as int)),
            None => None,
        }
    } else {
        None
    }
}

/// The name of the type the type argument `n` refers to: only the
/// outermost name counts
pub open spec fn base_type(t: SyntaxTree, n: int) -> Option<Seq<char>>
    decreases t.size() - n,
{
    let k = kind_of(t, n);
    if k == "type_identifier"@ || k == "identifier"@ {
        Some(text_of(t, n))
    } else if k == "generic_type"@ {
        match field_child(t, n, "type"@) {
            Some(i) => if n < i < t.size() {
                base_type(t, i as int)
            } else {
                None
            },
            None => None,
        }
    } else if k == "scoped_type_identifier"@ || k == "scoped_identifier"@ {
        match field_child(t, n, "name"@) {
            Some(nm) => Some(text_of(t, nm as int)),
            None => None,
        }
    } else {
        None
    }
}

/// The type names the arguments `args[..k]` refer to
pub open spec fn type_names(t: SyntaxTree, args: Seq<usize>, k: int) -> Seq<Seq<char>>
    decreases k,
{
    if k <= 0 || k > args.len() {
        Seq::empty()
    } else {
        type_names(t, args, k - 1) + match base_type(t, args[k - 1] as int) {
            Some(x) => seq![x],
            None => Seq::empty(),
        }
    }
}

/// The call the `generic_function` node `n` makes, when it sits in a test
/// and names types in its turbofish
pub open spec fn call_of(t: SyntaxTree, n: int, scope: Scope) -> Seq<CallView> {
    if scope == Scope::Shipped {
        Seq::empty()
    } else {
        match field_child(t, n, "function"@) {
            None => Seq::empty(),
            Some(f) => match last_segment(t, f as int) {
                None => Seq::empty(),
                Some(c) => match field_child(t, n, "type_arguments"@) {
                    None => Seq::empty(),
                    Some(a) => {
                        let ts = type_names(t, named_children_of(t, a as int), named_children_of(t, a as int).len() as int);
                        if ts.len() == 0 {
                            Seq::empty()
                        } else {
                            seq![(c, ts)]
                        }
                    },
                },
            },
        }
    }
}

/// Whether one of the attributes names `cfg(test)` or `#[test]`
pub open spec fn any_test_scope_attr(attrs: Seq<Seq<char>>) -> bool {
    exists|i: int| 0 <= i < attrs.len() && (mentions_test(#[trigger] attrs[i]) || test_attribute(attrs[i]))
}

/// Whether one of the attributes is a `cfg` that names `test`
pub open spec fn any_cfg_test(attrs: Seq<Seq<char>>) -> bool {
    exists|i: int| 0 <= i < attrs.len() && mentions_test(#[trigger] attrs[i])
}

/// Whether one of the attributes is `#[test]`
pub open spec fn any_test_attr(attrs: Seq<Seq<char>>) -> bool {
    exists|i: int| 0 <= i < attrs.len() && test_attribute(#[trigger] attrs[i])
}

/// Two pairs of lists joined side by side
pub open spec fn pair_add<A, B>(a: (Seq<A>, Seq<B>), b: (Seq<A>, Seq<B>)) -> (Seq<A>, Seq<B>) {
    (a.0 + b.0, a.1 + b.1)
}

/// The helpers and test calls the subtree of node `n` holds, given the
/// scope `n` sits in
pub open spec fn assertions(t: SyntaxTree, n: int, scope: Scope) -> (Seq<Entry>, Seq<CallView>)
    decreases t.size() - n, 1int, 0int,
{
    let own = (
        if kind_of(t, n) == "function_item"@ {
            helper_of(t, n)
        } else {
            Seq::empty()
        },
        if kind_of(t, n) == "generic_function"@ {
            call_of(t, n, scope)
        } else {
            Seq::empty()
        },
    );
    pair_add(own, assertions_kids(t, n, named_children_of(t, n), 0, scope, Seq::empty()))
}

/// The helpers and test calls below `kids[k..]`, the named children of `n`,
/// given the attributes that precede `kids[k]`
pub open spec fn assertions_kids(
    t: SyntaxTree,
    n: int,
    kids: Seq<usize>,
    k: int,
    scope: Scope,
    attrs: Seq<Seq<char>>,
) -> (Seq<Entry>, Seq<CallView>)
    decreases t.size() - n, 0int, kids.len() - k,
{
    if k < 0 || k >= kids.len() {
        (Seq::empty(), Seq::empty())
    } else {
        let c = kids[k] as int;
        if comment_kind(kind_of(t, c)) {
            assertions_kids(t, n, kids, k + 1, scope, attrs)
        } else if kind_of(t, c) == "attribute_item"@ {
            assertions_kids(t, n, kids, k + 1, scope, attrs.push(text_of(t, c)))
        } else {
            let inner = if (kind_of(t, c) == "mod_item"@ || kind_of(t, c) == "function_item"@)
                && any_test_scope_attr(attrs) {
                Scope::Test
            } else {
                scope
            };
            let here = if n < c < t.size() {
                assertions(t, c, inner)
            } else {
                (Seq::empty(), Seq::empty())
            };
            pair_add(here, assertions_kids(t, n, kids, k + 1, scope, Seq::empty()))
        }
    }
}

/// The views of a list of helper entries
pub open spec fn entry_views(v: Seq<(String, TraitSet)>) -> Seq<Entry> {
    v.map_values(|e: (String, TraitSet)| (e.0@, e.1))
}

/// A turbofish call a test makes
#[derive(Clone, Debug)]
pub struct Call {
    pub callee: String,
    pub types: Vec<String>,
}

/// The view of a call
pub open spec fn call_view(c: Call) -> CallView {
    (c.callee@, c.types@.map_values(|s: String| s@))
}

/// The views of a list of calls
pub open spec fn call_views(v: Seq<Call>) -> Seq<CallView> {
    v.map_values(|c: Call| call_view(c))
}

/// Returns the set with `t` added
fn add_trait(s: TraitSet, tr: AutoTrait) -> (r: TraitSet)
    ensures
        r == with_trait(s, tr),
{
    match tr {
        AutoTrait::Send => TraitSet { send: true, ..s },
        AutoTrait::Sync => TraitSet { sync: true, ..s },
        AutoTrait::Unpin => TraitSet { unpin: true, ..s },
    }
}

/// Returns the union of two sets
fn union_of(a: TraitSet, b: TraitSet) -> (r: TraitSet)
    ensures
        r == union(a, b),
{
    TraitSet { send: a.send || b.send, sync: a.sync || b.sync, unpin: a.unpin || b.unpin }
}

/// Reads the `bounds` field of a node and returns the auto traits it names
///
/// Both a constrained type parameter and a `where` predicate carry their
/// bounds under that field, so one reader serves both.
fn collect_bound_traits(t: &SyntaxTree, e: usize) -> (r: TraitSet)
    requires
        t.valid(),
        e < t.size(),
    ensures
        r == bound_traits(*t, e as int),
{
    let b = match child_by_field_name(t, e, "bounds") {
        Some(b) => b,
        None => return TraitSet { send: false, sync: false, unpin: false },
    };
    let bs = named_children(t, b);
    let mut s = TraitSet { send: false, sync: false, unpin: false };
    let mut k: usize = 0;
    while k < bs.len()
        invariant
            t.valid(),
            bs@ == named_children_of(*t, b as int),
            forall|j: int| 0 <= j < bs@.len() ==> #[trigger] bs@[j] < t.size(),
            k <= bs@.len(),
            s == bounds_fold(*t, bs@, k as int),
        decreases bs@.len() - k,
    {
        match AutoTrait::from_bound(t.node(bs[k]).text.as_str()) {
            Some(tr) => {
                s = add_trait(s, tr);
            },
            None => {},
        }
        k += 1;
    }
    s
}

/// Returns the auto traits the generics of function `item` bound
fn generic_traits(t: &SyntaxTree, item: usize) -> (r: TraitSet)
    requires
        t.valid(),
        item < t.size(),
    ensures
        r == generics_fold(*t, named_children_of(*t, item as int), named_children_of(*t, item as int).len() as int),
{
    let kids = named_children(t, item);
    let mut s = TraitSet { send: false, sync: false, unpin: false };
    let mut k: usize = 0;
    while k < kids.len()
        invariant
            t.valid(),
            kids@ == named_children_of(*t, item as int),
            forall|j: int| 0 <= j < kids@.len() ==> #[trigger] kids@[j] < t.size(),
            k <= kids@.len(),
            s == generics_fold(*t, kids@, k as int),
        decreases kids@.len() - k,
    {
        let c = kids[k];
        if kind_is(t, c, "type_parameters") || kind_is(t, c, "where_clause") {
            let es = named_children(t, c);
            let mut inner = TraitSet { send: false, sync: false, unpin: false };
            let mut m: usize = 0;
            while m < es.len()
                invariant
                    t.valid(),
                    es@ == named_children_of(*t, c as int),
                    forall|j: int| 0 <= j < es@.len() ==> #[trigger] es@[j] < t.size(),
                    m <= es@.len(),
                    inner == entries_fold(*t, es@, m as int),
                decreases es@.len() - m,
            {
                inner = union_of(inner, collect_bound_traits(t, es[m]));
                m += 1;
            }
            s = union_of(s, inner);
        }
        k += 1;
    }
    s
}

/// Returns the final segment of a path expression, such as the `f` in `a::f`
pub fn last_path_segment<'a>(t: &'a SyntaxTree, f: usize) -> (r: Option<&'a str>)
    requires
        t.valid(),
        f < t.size(),
    ensures
        match r {
            Some(s) => last_segment(*t, f as int) == Some(s@),
            None => last_segment(*t, f as int) is None,
        },
{
    if kind_is(t, f, "identifier") {
        Some(t.node(f).text.as_str())
    } else if kind_is(t, f, "scoped_identifier") {
        match child_by_field_name(t, f, "name") {
            Some(nm) => Some(t.node(nm).text.as_str()),
            None => None,
        }
    } else {
        None
    }
}

/// Returns the name of the type a type argument refers to
///
/// Only the outermost name counts: `Vec<Foo>` yields `Vec`, not `Foo`.
pub fn base_type_name<'a>(t: &'a SyntaxTree, n: usize) -> (r: Option<&'a str>)
    requires
        t.valid(),
        n < t.size(),
    ensures
        match r {
            Some(s) => base_type(*t, n as int) == Some(s@),
            None => base_type(*t, n as int) is None,
        },
    decreases t.size() - n,
{
    if kind_is(t, n, "type_identifier") || kind_is(t, n, "identifier") {
        Some(t.node(n).text.as_str())
    } else if kind_is(t, n, "generic_type") {
        match child_by_field_name(t, n, "type") {
            Some(i) => base_type_name(t, i),
            None => None,
        }
    } else if kind_is(t, n, "scoped_type_identifier") || kind_is(t, n, "scoped_identifier") {
        match child_by_field_name(t, n, "name") {
            Some(nm) => Some(t.node(nm).text.as_str()),
            None => None,
        }
    } else {
        None
    }
}

/// Records a function whose generics carry auto trait bounds
///
/// Bounds written inline and bounds written in a `where` clause express the
/// same constraint, so both are read.
fn record_helper(t: &SyntaxTree, item: usize, helpers: &mut Vec<(String, TraitSet)>)
    requires
        t.valid(),
        item < t.size(),
    ensures
        entry_views(final(helpers)@) == entry_views(old(helpers)@) + helper_of(*t, item as int),
{
    let ghost before = entry_views(helpers@);
    let name = match child_by_field_name(t, item, "name") {
        Some(nm) => nm,
        None => {
            assert(before + Seq::<Entry>::empty() =~= before);
            return;
        },
    };
    let traits = generic_traits(t, item);
    if !traits.send && !traits.sync && !traits.unpin {
        assert(before + Seq::<Entry>::empty() =~= before);
        return;
    }
    helpers.push((t.node(name).text.clone(), traits));
    assert(entry_views(helpers@) =~= before + helper_of(*t, item as int));
}

/// Records a call that names types in a turbofish, such as `f::<Foo>()`
///
/// Only a call in test scope is recorded, because the rule asks for a test
/// and shipped code cannot supply one.
fn record_call(t: &SyntaxTree, node: usize, scope: Scope, calls: &mut Vec<Call>)
    requires
        t.valid(),
        node < t.size(),
    ensures
        call_views(final(calls)@) == call_views(old(calls)@) + call_of(*t, node as int, scope),
{
    let ghost before = call_views(calls@);
    assert(before + Seq::<CallView>::empty() =~= before);
    match scope {
        Scope::Shipped => return,
        Scope::Test => {},
    }
    let f = match child_by_field_name(t, node, "function") {
        Some(f) => f,
        None => return,
    };
    let callee = match last_path_segment(t, f) {
        Some(c) => c,
        None => return,
    };
    let a = match child_by_field_name(t, node, "type_arguments") {
        Some(a) => a,
        None => return,
    };
    let args = named_children(t, a);
    let mut types: Vec<String> = Vec::new();
    let mut k: usize = 0;
    while k < args.len()
        invariant
            t.valid(),
            args@ == named_children_of(*t, a as int),
            forall|j: int| 0 <= j < args@.len() ==> #[trigger] args@[j] < t.size(),
            k <= args@.len(),
            types@.map_values(|s: String| s@) == type_names(*t, args@, k as int),
        decreases args@.len() - k,
    {
        let ghost prev = types@;
        match base_type_name(t, args[k]) {
            Some(name) => {
                types.push(name.to_owned());
                assert(types@.map_values(|s: String| s@) =~= prev.map_values(|s: String| s@) + seq![name@]);
            },
            None => {
                assert(types@.map_values(|s: String| s@) =~= prev.map_values(|s: String| s@) + Seq::<Seq<char>>::empty());
            },
        }
        k += 1;
    }
    if types.len() == 0 {
        return;
    }
    let call = Call { callee: callee.to_owned(), types };
    calls.push(call);
    assert(call_views(calls@) =~= before + seq![call_view(call)]);
}

/// Returns whether one of the attributes names `cfg(test)` or `#[test]`
fn opens_test_scope(attrs: &Vec<&str>) -> (r: bool)
    ensures
        r == any_test_scope_attr(views(attrs@)),
{
    let mut k: usize = 0;
    while k < attrs.len()
        invariant
            k <= attrs@.len(),
            forall|j: int| 0 <= j < k ==> !(mentions_test(#[trigger] views(attrs@)[j]) || test_attribute(views(attrs@)[j])),
        decreases attrs@.len() - k,
    {
        if cfg_mentions_test(attrs[k]) || is_test_attribute(attrs[k]) {
            assert(mentions_test(views(attrs@)[k as int]) || test_attribute(views(attrs@)[k as int]));
            return true;
        }
        k += 1;
    }
    false
}

/// Collects the bounded helpers and the turbofish calls tests make
///
/// Helpers count wherever they are declared, since declaring one proves
/// nothing on its own and a test may borrow a helper that shipped code owns.
/// Calls count only inside a test, so a shipped call that happens to require
/// the bound cannot stand in for the missing test. A `#[cfg(test)]` module
/// and a `#[test]` function both open test scope.
fn collect_assertions(
    t: &SyntaxTree,
    n: usize,
    scope: Scope,
    helpers: &mut Vec<(String, TraitSet)>,
    calls: &mut Vec<Call>,
)
    requires
        t.valid(),
        n < t.size(),
    ensures
        entry_views(final(helpers)@) == entry_views(old(helpers)@) + assertions(*t, n as int, scope).0,
        call_views(final(calls)@) == call_views(old(calls)@) + assertions(*t, n as int, scope).1,
    decreases t.size() - n,
{
    let ghost h0 = entry_views(helpers@);
    let ghost c0 = call_views(calls@);
    if kind_is(t, n, "function_item") {
        record_helper(t, n, helpers);
    } else {
        assert(h0 + Seq::<Entry>::empty() =~= h0);
    }
    if kind_is(t, n, "generic_function") {
        record_call(t, n, scope, calls);
    } else {
        assert(c0 + Seq::<CallView>::empty() =~= c0);
    }
    let kids = named_children(t, n);
    let ghost total = assertions(*t, n as int, scope);
    let mut attrs: Vec<&str> = Vec::new();
    let mut k: usize = 0;
    proof {
        assert(views(attrs@) =~= Seq::<Seq<char>>::empty());
        let rest = assertions_kids(*t, n as int, kids@, 0, scope, Seq::empty());
        assert(h0 + total.0 =~= entry_views(helpers@) + rest.0);
        assert(c0 + total.1 =~= call_views(calls@) + rest.1);
    }
    while k < kids.len()
        invariant
            t.valid(),
            n < t.size(),
            kids@ == named_children_of(*t, n as int),
            forall|j: int| 0 <= j < kids@.len() ==> n < #[trigger] kids@[j] < t.size(),
            k <= kids@.len(),
            h0 + total.0 == entry_views(helpers@) + assertions_kids(*t, n as int, kids@, k as int, scope, views(attrs@)).0,
            c0 + total.1 == call_views(calls@) + assertions_kids(*t, n as int, kids@, k as int, scope, views(attrs@)).1,
        decreases kids@.len() - k,
    {
        let c = kids[k];
        let ghost av = views(attrs@);
        if kind_is(t, c, "line_comment") || kind_is(t, c, "block_comment") {
            k += 1;
        } else if kind_is(t, c, "attribute_item") {
            attrs.push(t.node(c).text.as_str());
            assert(views(attrs@) =~= av.push(text_of(*t, c as int)));
            k += 1;
        } else {
            let inner = if (kind_is(t, c, "mod_item") || kind_is(t, c, "function_item")) && opens_test_scope(&attrs) {
                Scope::Test
            } else {
                scope
            };
            let ghost hb = entry_views(helpers@);
            let ghost cb = call_views(calls@);
            let ghost here = assertions(*t, c as int, inner);
            let ghost rest = assertions_kids(*t, n as int, kids@, k + 1, scope, Seq::empty());
            collect_assertions(t, c, inner, helpers, calls);
            attrs.clear();
            proof {
                assert(views(attrs@) =~= Seq::<Seq<char>>::empty());
                assert(hb + (here.0 + rest.0) =~= entry_views(helpers@) + rest.0);
                assert(cb + (here.1 + rest.1) =~= call_views(calls@) + rest.1);
            }
            k += 1;
        }
    }
    proof {
        assert(entry_views(helpers@) + Seq::<Entry>::empty() =~= entry_views(helpers@));
        assert(call_views(calls@) + Seq::<CallView>::empty() =~= call_views(calls@));
    }
}


/// The comments in the subtree of node `n`, in source order
pub open spec fn comments_in(t: SyntaxTree, n: int) -> Seq<Seq<char>>
    decreases t.size() - n, 1int, 0int,
{
    (if comment_kind(kind_of(t, n)) {
        seq![text_of(t, n)]
    } else {
        Seq::empty()
    }) + comments_kids(t, n, named_children_of(t, n), 0)
}

/// The comments below `kids[k..]`, the named children of `n`
pub open spec fn comments_kids(t: SyntaxTree, n: int, kids: Seq<usize>, k: int) -> Seq<Seq<char>>
    decreases t.size() - n, 0int, kids.len() - k,
{
    if k < 0 || k >= kids.len() {
        Seq::empty()
    } else if n < kids[k] < t.size() {
        comments_in(t, kids[k] as int) + comments_kids(t, n, kids, k + 1)
    } else {
        comments_kids(t, n, kids, k + 1)
    }
}

/// The trait a negative test named `name` excuses a type from
pub open spec fn negative_trait(name: Seq<char>) -> Option<AutoTrait> {
    if starts_with(name, negative_prefix(AutoTrait::Send)) {
        Some(AutoTrait::Send)
    } else if starts_with(name, negative_prefix(AutoTrait::Sync)) {
        Some(AutoTrait::Sync)
    } else if starts_with(name, negative_prefix(AutoTrait::Unpin)) {
        Some(AutoTrait::Unpin)
    } else {
        None
    }
}

/// Whether one of the comments says something once its markers are gone
pub open spec fn explained(cs: Seq<Seq<char>>) -> bool {
    exists|i: int| 0 <= i < cs.len() && trim(comment_text(#[trigger] cs[i])).len() > 0
}

/// The names the comments put in backticks, in order
pub open spec fn comment_names(cs: Seq<Seq<char>>) -> Seq<Seq<char>>
    decreases cs.len(),
{
    if cs.len() == 0 {
        Seq::empty()
    } else {
        comment_names(cs.drop_last()) + backticked(comment_text(cs.last()))
    }
}

/// Each of `names` with the one trait `tr`
pub open spec fn credited(names: Seq<Seq<char>>, tr: AutoTrait) -> Seq<Entry> {
    names.map_values(|x: Seq<char>| (x, with_trait(no_traits(), tr)))
}

/// What the function `item` proves as a documented negative test, given
/// the attributes and comments in front of it
pub open spec fn negative_of(t: SyntaxTree, item: int, attrs: Seq<Seq<char>>, comments: Seq<Seq<char>>) -> Seq<Entry> {
    if !any_test_attr(attrs) {
        Seq::empty()
    } else {
        match field_child(t, item, "name"@) {
            None => Seq::empty(),
            Some(nm) => match negative_trait(text_of(t, nm as int)) {
                None => Seq::empty(),
                Some(tr) => {
                    let cs = comments + match field_child(t, item, "body"@) {
                        Some(b) => comments_in(t, b as int),
                        None => Seq::empty(),
                    };
                    if !explained(cs) {
                        Seq::empty()
                    } else {
                        credited(comment_names(cs), tr)
                    }
                },
            },
        }
    }
}

/// The candidate the type definition `c` adds, unless test scope or a
/// `cfg(test)` attribute hides it from the build
pub open spec fn candidate_of(t: SyntaxTree, c: int, scope: Scope, attrs: Seq<Seq<char>>) -> Seq<CandidateView> {
    if scope == Scope::Test || any_cfg_test(attrs) {
        Seq::empty()
    } else {
        match field_child(t, c, "name"@) {
            None => Seq::empty(),
            Some(nm) => seq![(text_of(t, nm as int), t.node_at(nm as int).start, t.node_at(nm as int).end)],
        }
    }
}

/// The candidates and negative-test proof the items of `container` hold
pub open spec fn walk(t: SyntaxTree, container: int, scope: Scope) -> (Seq<CandidateView>, Seq<Entry>)
    decreases t.size() - container, 1int, 0int,
{
    walk_kids(t, container, named_children_of(t, container), 0, scope, Seq::empty(), Seq::empty())
}

/// The candidates and proof from `kids[k..]`, the named children of `n`,
/// given the attributes and comments in front of `kids[k]`
pub open spec fn walk_kids(
    t: SyntaxTree,
    n: int,
    kids: Seq<usize>,
    k: int,
    scope: Scope,
    attrs: Seq<Seq<char>>,
    comments: Seq<Seq<char>>,
) -> (Seq<CandidateView>, Seq<Entry>)
    decreases t.size() - n, 0int, kids.len() - k,
{
    if k < 0 || k >= kids.len() {
        (Seq::empty(), Seq::empty())
    } else {
        let c = kids[k] as int;
        let kc = kind_of(t, c);
        if comment_kind(kc) {
            walk_kids(t, n, kids, k + 1, scope, attrs, comments.push(text_of(t, c)))
        } else if kc == "attribute_item"@ {
            walk_kids(t, n, kids, k + 1, scope, attrs.push(text_of(t, c)), comments)
        } else {
            let here = if kc == "struct_item"@ || kc == "enum_item"@ {
                (candidate_of(t, c, scope, attrs), Seq::empty())
            } else if kc == "mod_item"@ {
                let inner = if any_cfg_test(attrs) {
                    Scope::Test
                } else {
                    scope
                };
                match field_child(t, c, "body"@) {
                    Some(b) => if n < b < t.size() {
                        walk(t, b as int, inner)
                    } else {
                        (Seq::empty(), Seq::empty())
                    },
                    None => (Seq::empty(), Seq::empty()),
                }
            } else if kc == "function_item"@ {
                (Seq::empty(), negative_of(t, c, attrs, comments))
            } else {
                (Seq::empty(), Seq::empty())
            };
            pair_add(here, walk_kids(t, n, kids, k + 1, scope, Seq::empty(), Seq::empty()))
        }
    }
}

/// The union of the traits `entries` record for `name`
pub open spec fn traits_for(entries: Seq<Entry>, name: Seq<char>) -> TraitSet
    decreases entries.len(),
{
    if entries.len() == 0 {
        no_traits()
    } else {
        let s = traits_for(entries.drop_last(), name);
        if entries.last().0 == name {
            union(s, entries.last().1)
        } else {
            s
        }
    }
}

/// Whether `entries` record anything for `name`
pub open spec fn has_entry(entries: Seq<Entry>, name: Seq<char>) -> bool {
    exists|i: int| 0 <= i < entries.len() && (#[trigger] entries[i]).0 == name
}

/// The proof the calls make: each type a call names gets the traits its
/// callee's helpers bound, when the callee is a known helper
pub open spec fn resolved(calls: Seq<CallView>, helpers: Seq<Entry>) -> Seq<Entry>
    decreases calls.len(),
{
    if calls.len() == 0 {
        Seq::empty()
    } else {
        let c = calls.last();
        resolved(calls.drop_last(), helpers) + if has_entry(helpers, c.0) {
            c.1.map_values(|x: Seq<char>| (x, traits_for(helpers, c.0)))
        } else {
            Seq::empty()
        }
    }
}

/// A call in shipped code proves nothing, whatever bound its callee
/// carries: the rule asks for a test, not for the constraint
pub proof fn law_shipped_call_proves_nothing(t: SyntaxTree, n: int)
    ensures
        call_of(t, n, Scope::Shipped) == Seq::<CallView>::empty(),
{
}

/// Resolving the calls drains them, so a second resolution adds no proof
pub proof fn law_second_resolution_adds_nothing(helpers: Seq<Entry>)
    ensures
        resolved(Seq::<CallView>::empty(), helpers) == Seq::<Entry>::empty(),
{
}

/// The traits in the order the diagnostic lists them that `s` lacks
pub open spec fn missing_traits(s: TraitSet) -> Seq<AutoTrait> {
    (if s.send {
        Seq::empty()
    } else {
        seq![AutoTrait::Send]
    }) + (if s.sync {
        Seq::empty()
    } else {
        seq![AutoTrait::Sync]
    }) + (if s.unpin {
        Seq::empty()
    } else {
        seq![AutoTrait::Unpin]
    })
}

/// The findings for the candidates `cands[..k]`, given the proof `proven`
pub open spec fn report_upto(cands: Seq<CandidateView>, proven: Seq<Entry>, k: int) -> Seq<
    (Seq<char>, Seq<char>, usize, usize),
>
    decreases k,
{
    if k <= 0 || k > cands.len() {
        Seq::empty()
    } else {
        let rest = report_upto(cands, proven, k - 1);
        let c = cands[k - 1];
        let m = missing_traits(traits_for(proven, c.0));
        if m.len() == 0 {
            rest
        } else {
            rest.push(
                (
                    "lint.missing-trait-tests"@,
                    "`"@ + c.0 + "` has no "@ + joined_traits(m) + " trait test"@,
                    c.1,
                    c.2,
                ),
            )
        }
    }
}

/// What the rule reports of the file whose root is `root` and whose path
/// is `path`
pub open spec fn file_findings(t: SyntaxTree, root: int, path: Seq<char>) -> Seq<(Seq<char>, Seq<char>, usize, usize)> {
    if test_target(path) {
        Seq::empty()
    } else {
        let a = assertions(t, root, Scope::Shipped);
        let w = walk(t, root, Scope::Shipped);
        report_upto(w.0, w.1 + resolved(a.1, a.0), w.0.len() as int)
    }
}

/// Collects the text of every comment inside a node
fn collect_comments<'a>(t: &'a SyntaxTree, n: usize, out: &mut Vec<&'a str>)
    requires
        t.valid(),
        n < t.size(),
    ensures
        views(final(out)@) == views(old(out)@) + comments_in(*t, n as int),
    decreases t.size() - n,
{
    let ghost start = views(out@);
    if kind_is(t, n, "line_comment") || kind_is(t, n, "block_comment") {
        out.push(t.node(n).text.as_str());
        assert(views(out@) =~= start + seq![text_of(*t, n as int)]);
    } else {
        assert(views(out@) =~= start + Seq::<Seq<char>>::empty());
    }
    let ghost mid = views(out@);
    let kids = named_children(t, n);
    let mut k: usize = 0;
    while k < kids.len()
        invariant
            t.valid(),
            n < t.size(),
            kids@ == named_children_of(*t, n as int),
            forall|j: int| 0 <= j < kids@.len() ==> n < #[trigger] kids@[j] < t.size(),
            k <= kids@.len(),
            mid + comments_kids(*t, n as int, kids@, 0) == views(out@) + comments_kids(*t, n as int, kids@, k as int),
        decreases kids@.len() - k,
    {
        let ghost before = views(out@);
        let ghost rest = comments_kids(*t, n as int, kids@, k + 1);
        collect_comments(t, kids[k], out);
        assert(before + (comments_in(*t, kids@[k as int] as int) + rest) =~= views(out@) + rest);
        k += 1;
    }
    assert(views(out@) + Seq::<Seq<char>>::empty() =~= views(out@));
    assert(start + comments_in(*t, n as int) =~= mid + comments_kids(*t, n as int, kids@, 0));
}

/// Returns whether one of the attributes is `#[test]`
fn has_test_attribute(attrs: &Vec<&str>) -> (r: bool)
    ensures
        r == any_test_attr(views(attrs@)),
{
    let mut k: usize = 0;
    while k < attrs.len()
        invariant
            k <= attrs@.len(),
            forall|j: int| 0 <= j < k ==> !test_attribute(#[trigger] views(attrs@)[j]),
        decreases attrs@.len() - k,
    {
        if is_test_attribute(attrs[k]) {
            assert(test_attribute(views(attrs@)[k as int]));
            return true;
        }
        k += 1;
    }
    false
}

/// Returns whether one of the attributes is a `cfg` that names `test`
fn has_cfg_test(attrs: &Vec<&str>) -> (r: bool)
    ensures
        r == any_cfg_test(views(attrs@)),
{
    let mut k: usize = 0;
    while k < attrs.len()
        invariant
            k <= attrs@.len(),
            forall|j: int| 0 <= j < k ==> !mentions_test(#[trigger] views(attrs@)[j]),
        decreases attrs@.len() - k,
    {
        if cfg_mentions_test(attrs[k]) {
            assert(mentions_test(views(attrs@)[k as int]));
            return true;
        }
        k += 1;
    }
    false
}

/// Returns whether the characters `s` start with `prefix`
fn starts_with_str(s: &[char], prefix: &str) -> (r: bool)
    ensures
        r == starts_with(s@, prefix@),
{
    let p = chars_of(prefix);
    matches_at(s, 0, p.as_slice())
}

/// Returns the trait a negative test's name excuses a type from
fn negative_test_trait(name: &str) -> (r: Option<AutoTrait>)
    ensures
        r == negative_trait(name@),
{
    let s = chars_of(name);
    if starts_with_str(s.as_slice(), AutoTrait::Send.negative_test_prefix()) {
        Some(AutoTrait::Send)
    } else if starts_with_str(s.as_slice(), AutoTrait::Sync.negative_test_prefix()) {
        Some(AutoTrait::Sync)
    } else if starts_with_str(s.as_slice(), AutoTrait::Unpin.negative_test_prefix()) {
        Some(AutoTrait::Unpin)
    } else {
        None
    }
}

/// A type definition that needs trait tests
#[derive(Clone, Debug)]
pub struct Candidate {
    pub name: String,
    pub start: usize,
    pub end: usize,
}

/// The view of a candidate
pub open spec fn candidate_view(c: Candidate) -> CandidateView {
    (c.name@, c.start, c.end)
}

/// The views of a list of candidates
pub open spec fn candidate_views(v: Seq<Candidate>) -> Seq<CandidateView> {
    v.map_values(|c: Candidate| candidate_view(c))
}

/// The types one file defines and the traits its tests prove
///
/// The scan gathers calls before it knows which callees carry a bound, so
/// `resolve_calls` turns the calls into proof once both halves are in.
pub struct FileScan {
    candidates: Vec<Candidate>,
    helpers: Vec<(String, TraitSet)>,
    calls: Vec<Call>,
    proven: Vec<(String, TraitSet)>,
}

impl FileScan {
    /// The types that need tests
    pub closed spec fn candidates_view(&self) -> Seq<CandidateView> {
        candidate_views(self.candidates@)
    }

    /// The bounded helper functions
    pub closed spec fn helpers_view(&self) -> Seq<Entry> {
        entry_views(self.helpers@)
    }

    /// The calls that tests make and that are not resolved yet
    pub closed spec fn calls_view(&self) -> Seq<CallView> {
        call_views(self.calls@)
    }

    /// The traits proven for each name
    pub closed spec fn proven_view(&self) -> Seq<Entry> {
        entry_views(self.proven@)
    }

    /// Creates a scan that has seen nothing
    pub fn new() -> (r: Self)
        ensures
            r.candidates_view() == Seq::<CandidateView>::empty(),
            r.helpers_view() == Seq::<Entry>::empty(),
            r.calls_view() == Seq::<CallView>::empty(),
            r.proven_view() == Seq::<Entry>::empty(),
    {
        let r = FileScan { candidates: Vec::new(), helpers: Vec::new(), calls: Vec::new(), proven: Vec::new() };
        assert(r.candidates_view() =~= Seq::<CandidateView>::empty());
        assert(r.helpers_view() =~= Seq::<Entry>::empty());
        assert(r.calls_view() =~= Seq::<CallView>::empty());
        assert(r.proven_view() =~= Seq::<Entry>::empty());
        r
    }

    /// Collects the bounded helpers and the test calls under node `n`
    pub fn collect_assertions(&mut self, t: &SyntaxTree, n: usize, scope: Scope)
        requires
            t.valid(),
            n < t.size(),
        ensures
            final(self).helpers_view() == old(self).helpers_view() + assertions(*t, n as int, scope).0,
            final(self).calls_view() == old(self).calls_view() + assertions(*t, n as int, scope).1,
            final(self).candidates_view() == old(self).candidates_view(),
            final(self).proven_view() == old(self).proven_view(),
    {
        collect_assertions(t, n, scope, &mut self.helpers, &mut self.calls);
    }

    /// Records a type definition, unless `#[cfg(test)]` hides it from the
    /// build
    pub fn record_candidate(&mut self, t: &SyntaxTree, item: usize, scope: Scope, attributes: &Vec<&str>)
        requires
            t.valid(),
            item < t.size(),
        ensures
            final(self).candidates_view() == old(self).candidates_view() + candidate_of(*t, item as int, scope, views(attributes@)),
            final(self).helpers_view() == old(self).helpers_view(),
            final(self).calls_view() == old(self).calls_view(),
            final(self).proven_view() == old(self).proven_view(),
    {
        let ghost before = self.candidates_view();
        assert(before + Seq::<CandidateView>::empty() =~= before);
        match scope {
            Scope::Test => return,
            Scope::Shipped => {},
        }
        if has_cfg_test(attributes) {
            return;
        }
        let name = match child_by_field_name(t, item, "name") {
            Some(nm) => nm,
            None => return,
        };
        let nm = t.node(name);
        let c = Candidate { name: nm.text.clone(), start: nm.start, end: nm.end };
        self.candidates.push(c);
        assert(self.candidates_view() =~= before + seq![candidate_view(c)]);
    }

    /// Credits the types a documented negative test excuses from a trait
    ///
    /// The body of such a test cannot assert the absence of an auto trait.
    /// The comment is the only place that names the type the test covers,
    /// and it may sit above the test or inside it.
    pub fn record_negative_test<'a>(
        &mut self,
        t: &'a SyntaxTree,
        item: usize,
        attributes: &Vec<&str>,
        comments: &Vec<&'a str>,
    )
        requires
            t.valid(),
            item < t.size(),
        ensures
            final(self).proven_view() == old(self).proven_view() + negative_of(
                *t,
                item as int,
                views(attributes@),
                views(comments@),
            ),
            final(self).candidates_view() == old(self).candidates_view(),
            final(self).helpers_view() == old(self).helpers_view(),
            final(self).calls_view() == old(self).calls_view(),
    {
        let ghost before = self.proven_view();
        assert(before + Seq::<Entry>::empty() =~= before);
        if !has_test_attribute(attributes) {
            return;
        }
        let name = match child_by_field_name(t, item, "name") {
            Some(nm) => nm,
            None => return,
        };
        let auto_trait = match negative_test_trait(t.node(name).text.as_str()) {
            Some(tr) => tr,
            None => return,
        };
        let mut all: Vec<&'a str> = comments.clone();
        assert(views(all@) == views(comments@));
        match child_by_field_name(t, item, "body") {
            Some(b) => collect_comments(t, b, &mut all),
            None => {
                assert(views(all@) =~= views(comments@) + Seq::<Seq<char>>::empty());
            },
        }
        let ghost cs = views(all@);
        let mut explained_any = false;
        let mut named: Vec<&'a str> = Vec::new();
        let mut k: usize = 0;
        while k < all.len()
            invariant
                cs == views(all@),
                k <= all@.len(),
                explained_any == exists|i: int| 0 <= i < k && trim(comment_text(#[trigger] cs[i])).len() > 0,
                views(named@) == comment_names(cs.subrange(0, k as int)),
            decreases all@.len() - k,
        {
            let body = comment_body(all[k]);
            let bc = chars_of(body);
            let (a, b) = trim_at(bc.as_slice(), 0, bc.len());
            assert(bc@.subrange(0, bc@.len() as int) =~= bc@);
            if a < b {
                explained_any = true;
                assert(trim(comment_text(cs[k as int])).len() > 0);
            }
            let names = backticked_names(body);
            let ghost prev = views(named@);
            let mut m: usize = 0;
            while m < names.len()
                invariant
                    m <= names@.len(),
                    views(named@) == prev + views(names@).subrange(0, m as int),
                decreases names@.len() - m,
            {
                let ghost pre = named@;
                named.push(names[m]);
                assert(named@ =~= pre.push(names@[m as int]));
                assert(views(named@) =~= views(pre).push(names@[m as int]@));
                assert(views(names@).subrange(0, m + 1) =~= views(names@).subrange(0, m as int).push(names@[m as int]@));
                m += 1;
            }
            assert(views(names@).subrange(0, m as int) =~= views(names@));
            assert(cs.subrange(0, k + 1).drop_last() =~= cs.subrange(0, k as int));
            k += 1;
        }
        assert(cs.subrange(0, k as int) =~= cs);
        if !explained_any {
            return;
        }
        let set = add_trait(TraitSet { send: false, sync: false, unpin: false }, auto_trait);
        let ghost ns = views(named@);
        let mut j: usize = 0;
        while j < named.len()
            invariant
                ns == views(named@),
                j <= named@.len(),
                set == with_trait(no_traits(), auto_trait),
                self.proven_view() == before + credited(ns, auto_trait).subrange(0, j as int),
                self.candidates_view() == old(self).candidates_view(),
                self.helpers_view() == old(self).helpers_view(),
                self.calls_view() == old(self).calls_view(),
            decreases named@.len() - j,
        {
            let ghost pv = self.proven_view();
            self.proven.push((named[j].to_owned(), set));
            assert(self.proven_view() =~= pv.push((ns[j as int], set)));
            j += 1;
            assert(credited(ns, auto_trait).subrange(0, j as int) =~= credited(ns, auto_trait).subrange(0, j - 1).push((ns[j - 1], set)));
        }
        assert(credited(ns, auto_trait).subrange(0, j as int) =~= credited(ns, auto_trait));
    }

    /// Walks the items of one container and records what precedes each item
    ///
    /// Tree-sitter leaves an item's attributes and comments beside it rather
    /// than inside it, so the walk carries them forward until it reaches
    /// that item.
    pub fn walk_items<'a>(&mut self, t: &'a SyntaxTree, container: usize, scope: Scope)
        requires
            t.valid(),
            container < t.size(),
        ensures
            final(self).candidates_view() == old(self).candidates_view() + walk(*t, container as int, scope).0,
            final(self).proven_view() == old(self).proven_view() + walk(*t, container as int, scope).1,
            final(self).helpers_view() == old(self).helpers_view(),
            final(self).calls_view() == old(self).calls_view(),
        decreases t.size() - container,
    {
        let kids = named_children(t, container);
        let ghost c0 = self.candidates_view();
        let ghost p0 = self.proven_view();
        let ghost total = walk(*t, container as int, scope);
        let mut attributes: Vec<&'a str> = Vec::new();
        let mut comments: Vec<&'a str> = Vec::new();
        assert(views(attributes@) =~= Seq::<Seq<char>>::empty());
        assert(views(comments@) =~= Seq::<Seq<char>>::empty());
        assert(c0 + total.0 =~= self.candidates_view() + total.0);
        let mut k: usize = 0;
        while k < kids.len()
            invariant
                t.valid(),
                container < t.size(),
                kids@ == named_children_of(*t, container as int),
                forall|j: int| 0 <= j < kids@.len() ==> container < #[trigger] kids@[j] < t.size(),
                k <= kids@.len(),
                c0 + total.0 == self.candidates_view() + walk_kids(*t, container as int, kids@, k as int, scope, views(attributes@), views(comments@)).0,
                p0 + total.1 == self.proven_view() + walk_kids(*t, container as int, kids@, k as int, scope, views(attributes@), views(comments@)).1,
                self.helpers_view() == old(self).helpers_view(),
                self.calls_view() == old(self).calls_view(),
            decreases kids@.len() - k,
        {
            let c = kids[k];
            let ghost av = views(attributes@);
            let ghost cv = views(comments@);
            if kind_is(t, c, "line_comment") || kind_is(t, c, "block_comment") {
                comments.push(t.node(c).text.as_str());
                assert(views(comments@) =~= cv.push(text_of(*t, c as int)));
                k += 1;
            } else if kind_is(t, c, "attribute_item") {
                attributes.push(t.node(c).text.as_str());
                assert(views(attributes@) =~= av.push(text_of(*t, c as int)));
                k += 1;
            } else {
                let ghost cb = self.candidates_view();
                let ghost pb = self.proven_view();
                let ghost rest = walk_kids(*t, container as int, kids@, k + 1, scope, Seq::empty(), Seq::empty());
                let ghost here: (Seq<CandidateView>, Seq<Entry>) = if kind_of(*t, c as int) == "struct_item"@ || kind_of(*t, c as int) == "enum_item"@ {
                    (candidate_of(*t, c as int, scope, av), Seq::empty())
                } else if kind_of(*t, c as int) == "mod_item"@ {
                    let inner = if any_cfg_test(av) {
                        Scope::Test
                    } else {
                        scope
                    };
                    match field_child(*t, c as int, "body"@) {
                        Some(b) => if (container as int) < b < t.size() {
                            walk(*t, b as int, inner)
                        } else {
                            (Seq::empty(), Seq::empty())
                        },
                        None => (Seq::empty(), Seq::empty()),
                    }
                } else if kind_of(*t, c as int) == "function_item"@ {
                    (Seq::empty(), negative_of(*t, c as int, av, cv))
                } else {
                    (Seq::empty(), Seq::empty())
                };
                assert(walk_kids(*t, container as int, kids@, k as int, scope, av, cv) == pair_add(here, rest));
                if kind_is(t, c, "struct_item") || kind_is(t, c, "enum_item") {
                    self.record_candidate(t, c, scope, &attributes);
                    assert(self.proven_view() =~= pb + Seq::<Entry>::empty());
                } else if kind_is(t, c, "mod_item") {
                    let inner = if has_cfg_test(&attributes) {
                        Scope::Test
                    } else {
                        scope
                    };
                    match child_by_field_name(t, c, "body") {
                        Some(b) => self.walk_items(t, b, inner),
                        None => {
                            assert(self.candidates_view() =~= cb + Seq::<CandidateView>::empty());
                            assert(self.proven_view() =~= pb + Seq::<Entry>::empty());
                        },
                    }
                } else if kind_is(t, c, "function_item") {
                    self.record_negative_test(t, c, &attributes, &comments);
                    assert(self.candidates_view() =~= cb + Seq::<CandidateView>::empty());
                } else {
                    assert(self.candidates_view() =~= cb + Seq::<CandidateView>::empty());
                    assert(self.proven_view() =~= pb + Seq::<Entry>::empty());
                }
                attributes.clear();
                comments.clear();
                proof {
                    assert(views(attributes@) =~= Seq::<Seq<char>>::empty());
                    assert(views(comments@) =~= Seq::<Seq<char>>::empty());
                    assert(cb + (here.0 + rest.0) =~= self.candidates_view() + rest.0);
                    assert(pb + (here.1 + rest.1) =~= self.proven_view() + rest.1);
                }
                k += 1;
            }
        }
        proof {
            assert(self.candidates_view() + Seq::<CandidateView>::empty() =~= self.candidates_view());
            assert(self.proven_view() + Seq::<Entry>::empty() =~= self.proven_view());
        }
    }

    /// Turns every call to a bounded helper into proof for the types it
    /// names
    ///
    /// The method drains the collected calls, so a second run adds no
    /// further proof.
    pub fn resolve_calls(&mut self)
        ensures
            final(self).proven_view() == old(self).proven_view() + resolved(
                old(self).calls_view(),
                old(self).helpers_view(),
            ),
            final(self).calls_view() == Seq::<CallView>::empty(),
            final(self).candidates_view() == old(self).candidates_view(),
            final(self).helpers_view() == old(self).helpers_view(),
    {
        let mut calls: Vec<Call> = Vec::new();
        std::mem::swap(&mut calls, &mut self.calls);
        let ghost cv = call_views(calls@);
        let ghost hv = self.helpers_view();
        let ghost p0 = self.proven_view();
        assert(cv.subrange(0, 0) =~= Seq::<CallView>::empty());
        assert(p0 + Seq::<Entry>::empty() =~= p0);
        assert(self.calls_view() =~= Seq::<CallView>::empty());
        let mut k: usize = 0;
        while k < calls.len()
            invariant
                cv == call_views(calls@),
                k <= calls@.len(),
                hv == self.helpers_view(),
                self.proven_view() == p0 + resolved(cv.subrange(0, k as int), hv),
                self.helpers_view() == old(self).helpers_view(),
                self.candidates_view() == old(self).candidates_view(),
                self.calls_view() == Seq::<CallView>::empty(),
            decreases calls@.len() - k,
        {
            let ghost pk = self.proven_view();
            let ghost c = cv[k as int];
            proof {
                assert(cv.subrange(0, k + 1).drop_last() =~= cv.subrange(0, k as int));
                assert(cv.subrange(0, k + 1).last() == c);
            }
            let (found, traits) = helper_traits(&self.helpers, calls[k].callee.as_str());
            let types = &calls[k].types;
            if found {
                let mut m: usize = 0;
                while m < types.len()
                    invariant
                        m <= types@.len(),
                        c.1 == types@.map_values(|x: String| x@),
                        self.proven_view() == pk + Seq::new(m as nat, |i: int| (types@[i]@, traits)),
                        self.helpers_view() == old(self).helpers_view(),
                        self.candidates_view() == old(self).candidates_view(),
                        self.calls_view() == Seq::<CallView>::empty(),
                    decreases types@.len() - m,
                {
                    let ghost pm = self.proven_view();
                    self.proven.push((types[m].clone(), traits));
                    assert(self.proven_view() =~= pm.push((types@[m as int]@, traits)));
                    m += 1;
                    assert(self.proven_view() =~= pk + Seq::new(m as nat, |i: int| (types@[i]@, traits)));
                }
                assert(Seq::new(m as nat, |i: int| (types@[i]@, traits)) =~= c.1.map_values(
                    |x: Seq<char>| (x, traits_for(hv, c.0)),
                ));
            } else {
                assert(self.proven_view() =~= pk + Seq::<Entry>::empty());
            }
            k += 1;
        }
        assert(cv.subrange(0, k as int) =~= cv);
    }

    /// Reports one diagnostic per type that is missing any of the three
    /// tests
    pub fn report(&self) -> (r: Vec<Diagnostic>)
        ensures
            all_under(diag_views(r@), "lint.missing-trait-tests"@),
            diag_views(r@) == report_upto(
                self.candidates_view(),
                self.proven_view(),
                self.candidates_view().len() as int,
            ),
    {
        let ghost cv = self.candidates_view();
        let ghost pv = self.proven_view();
        let mut out: Vec<Diagnostic> = Vec::new();
        let mut k: usize = 0;
        assert(diag_views(out@) =~= Seq::<(Seq<char>, Seq<char>, usize, usize)>::empty());
        while k < self.candidates.len()
            invariant
                cv == self.candidates_view(),
                pv == self.proven_view(),
                k <= cv.len(),
                diag_views(out@) == report_upto(cv, pv, k as int),
                all_under(diag_views(out@), "lint.missing-trait-tests"@),
            decreases cv.len() - k,
        {
            let c = &self.candidates[k];
            let (_, traits) = helper_traits(&self.proven, c.name.as_str());
            let missing = missing_of(traits);
            if missing.len() > 0 {
                let mut message = String::new();
                append(&mut message, "`");
                append(&mut message, c.name.as_str());
                append(&mut message, "` has no ");
                let joined = join_traits(missing.as_slice());
                append(&mut message, joined.as_str());
                append(&mut message, " trait test");
                let d = Diagnostic::new("lint.missing-trait-tests", message, c.start, c.end);
                let ghost before = diag_views(out@);
                out.push(d);
                assert(diag_views(out@) =~= before.push(diag_view(d)));
                assert(diag_views(out@)[diag_views(out@).len() - 1] == diag_view(d));
            }
            k += 1;
        }
        out
    }
}

/// Returns the traits the entries record for `name`, and whether any entry
/// names it
fn helper_traits(entries: &Vec<(String, TraitSet)>, name: &str) -> (r: (bool, TraitSet))
    ensures
        r.0 == has_entry(entry_views(entries@), name@),
        r.1 == traits_for(entry_views(entries@), name@),
{
    let ghost es = entry_views(entries@);
    let nc = chars_of(name);
    let mut found = false;
    let mut s = TraitSet { send: false, sync: false, unpin: false };
    let mut k: usize = 0;
    assert(es.subrange(0, 0) =~= Seq::<Entry>::empty());
    while k < entries.len()
        invariant
            es == entry_views(entries@),
            nc@ == name@,
            k <= entries@.len(),
            found == exists|i: int| 0 <= i < k && (#[trigger] es[i]).0 == name@,
            s == traits_for(es.subrange(0, k as int), name@),
        decreases entries@.len() - k,
    {
        let kc = chars_of(entries[k].0.as_str());
        proof {
            assert(es.subrange(0, k + 1).drop_last() =~= es.subrange(0, k as int));
            assert(es.subrange(0, k + 1).last() == es[k as int]);
        }
        if same_chars(kc.as_slice(), nc.as_slice()) {
            found = true;
            s = union_of(s, entries[k].1);
        }
        k += 1;
    }
    assert(es.subrange(0, k as int) =~= es);
    (found, s)
}

/// Returns the traits `s` lacks, in the order the diagnostic lists them
fn missing_of(s: TraitSet) -> (r: Vec<AutoTrait>)
    ensures
        r@ == missing_traits(s),
{
    let mut out: Vec<AutoTrait> = Vec::new();
    if !s.send {
        out.push(AutoTrait::Send);
    }
    if !s.sync {
        out.push(AutoTrait::Sync);
    }
    if !s.unpin {
        out.push(AutoTrait::Unpin);
    }
    assert(out@ =~= missing_traits(s));
    out
}

} // verus!
