//! Enforces the canonical order of `#[derive(...)]` lists
//!
//! Standard library derives come first, in the order Copy, Clone, Eq,
//! PartialEq, Ord, PartialOrd, Hash, Debug, Default, followed by third-party
//! derives sorted alphabetically.
use vstd::prelude::*;

use crate::diagnostic::{all_under, diag_view, diag_views, Diagnostic};
use crate::syntax::{text_of, SyntaxTree};
use crate::text::{
    after_last_path_sep, after_last_path_sep_at, append, chars_of, find_char, find_from,
    lemma_find_from, range_is, strip_prefix, strip_prefix_at, strip_suffix, strip_suffix_at,
    string_of, string_of_range, trim, trim_at,
};

verus! {

broadcast use vstd::seq_lib::group_seq_properties;

/// Enforces canonical ordering of `#[derive(...)]` attributes
pub struct DeriveOrder;

/// The standard library derives, in the order the rule prescribes
pub open spec fn std_derives() -> Seq<Seq<char>> {
    seq![
        "Copy"@,
        "Clone"@,
        "Eq"@,
        "PartialEq"@,
        "Ord"@,
        "PartialOrd"@,
        "Hash"@,
        "Debug"@,
        "Default"@,
    ]
}

/// The position of a standard library derive in the prescribed order
pub open spec fn std_index(name: Seq<char>) -> Option<usize> {
    if name == "Copy"@ {
        Some(0)
    } else if name == "Clone"@ {
        Some(1)
    } else if name == "Eq"@ {
        Some(2)
    } else if name == "PartialEq"@ {
        Some(3)
    } else if name == "Ord"@ {
        Some(4)
    } else if name == "PartialOrd"@ {
        Some(5)
    } else if name == "Hash"@ {
        Some(6)
    } else if name == "Debug"@ {
        Some(7)
    } else if name == "Default"@ {
        Some(8)
    } else {
        None
    }
}

/// Returns the positional index of a standard library derive, if any
pub fn std_derive_index(name: &str) -> (r: Option<usize>)
    ensures
        r == std_index(name@),
{
    let s = chars_of(name);
    let n = s.len();
    if range_is(s.as_slice(), 0, n, "Copy") {
        assert(s@.subrange(0, n as int) =~= s@);
        Some(0)
    } else if range_is(s.as_slice(), 0, n, "Clone") {
        assert(s@.subrange(0, n as int) =~= s@);
        Some(1)
    } else if range_is(s.as_slice(), 0, n, "Eq") {
        assert(s@.subrange(0, n as int) =~= s@);
        Some(2)
    } else if range_is(s.as_slice(), 0, n, "PartialEq") {
        assert(s@.subrange(0, n as int) =~= s@);
        Some(3)
    } else if range_is(s.as_slice(), 0, n, "Ord") {
        assert(s@.subrange(0, n as int) =~= s@);
        Some(4)
    } else if range_is(s.as_slice(), 0, n, "PartialOrd") {
        assert(s@.subrange(0, n as int) =~= s@);
        Some(5)
    } else if range_is(s.as_slice(), 0, n, "Hash") {
        assert(s@.subrange(0, n as int) =~= s@);
        Some(6)
    } else if range_is(s.as_slice(), 0, n, "Debug") {
        assert(s@.subrange(0, n as int) =~= s@);
        Some(7)
    } else if range_is(s.as_slice(), 0, n, "Default") {
        assert(s@.subrange(0, n as int) =~= s@);
        Some(8)
    } else {
        assert(s@.subrange(0, n as int) =~= s@);
        None
    }
}

/// Returns the macro name of a potentially qualified path
///
/// Given `"serde::Serialize"`, returns `"Serialize"`.
pub fn macro_name(full_path: &str) -> (r: &str)
    ensures
        r@ == after_last_path_sep(full_path@),
{
    let s = chars_of(full_path);
    let n = s.len();
    assert(s@.subrange(0, n as int) =~= s@);
    let k = after_last_path_sep_at(s.as_slice(), 0, n);
    crate::text::slice_of(full_path, s.as_slice(), k, n)
}

/// The pieces of `t[start..]` between commas, each trimmed
pub open spec fn comma_pieces(t: Seq<char>, start: int) -> Seq<Seq<char>>
    decreases t.len() - start,
{
    if start < 0 || start > t.len() {
        Seq::empty()
    } else {
        let k = find_from(t, ',', start, t.len() as int);
        if k < 0 {
            seq![trim(t.subrange(start, t.len() as int))]
        } else {
            proof {
                lemma_find_from(t, ',', start, t.len() as int);
            }
            seq![trim(t.subrange(start, k))] + comma_pieces(t, k + 1)
        }
    }
}

/// The names a `#[derive(...)]` attribute lists, or [`None`] when the text
/// is no derive attribute or its list is empty
pub open spec fn derive_names(text: Seq<char>) -> Option<Seq<Seq<char>>> {
    match strip_prefix(trim(text), "#[derive("@) {
        None => None,
        Some(a) => match strip_suffix(a, ")]"@) {
            None => None,
            Some(b) => {
                let inner = trim(b);
                if inner.len() == 0 {
                    None
                } else {
                    Some(comma_pieces(inner, 0))
                }
            },
        },
    }
}

/// The views of a list of strings
pub open spec fn string_views(v: Seq<String>) -> Seq<Seq<char>> {
    v.map_values(|s: String| s@)
}

/// Extracts derive names from `#[derive(...)]` attribute text
///
/// Returns [`None`] if the text is not a derive attribute or the derive list
/// is empty.
pub fn extract_derive_names(text: &str) -> (r: Option<Vec<String>>)
    ensures
        match r {
            Some(v) => derive_names(text@) == Some(string_views(v@)),
            None => derive_names(text@) is None,
        },
{
    let s = chars_of(text);
    let n = s.len();
    assert(s@.subrange(0, n as int) =~= s@);
    let (a, b) = trim_at(s.as_slice(), 0, n);
    let open = chars_of("#[derive(");
    let a2 = match strip_prefix_at(s.as_slice(), a, b, open.as_slice()) {
        Some(k) => k,
        None => return None,
    };
    let close = chars_of(")]");
    let b2 = match strip_suffix_at(s.as_slice(), a2, b, close.as_slice()) {
        Some(k) => k,
        None => return None,
    };
    let (x, y) = trim_at(s.as_slice(), a2, b2);
    if x == y {
        return None;
    }
    let ghost inner = s@.subrange(x as int, y as int);
    assert(derive_names(text@) == Some(comma_pieces(inner, 0)));
    let mut names: Vec<String> = Vec::new();
    let mut i = x;
    loop
        invariant
            x <= i <= y <= s@.len(),
            inner == s@.subrange(x as int, y as int),
            derive_names(text@) == Some(comma_pieces(inner, 0)),
            string_views(names@) + comma_pieces(inner, i - x) == comma_pieces(inner, 0),
        decreases y - i,
    {
        proof {
            lemma_find_from(s@, ',', i as int, y as int);
            crate::text::lemma_find_from_shift(s@, ',', x as int, i as int, y as int);
        }
        let e = match find_char(s.as_slice(), ',', i, y) {
            Some(k) => k,
            None => y,
        };
        let (p, q) = trim_at(s.as_slice(), i, e);
        let piece = string_of_range(s.as_slice(), p, q);
        let ghost before = string_views(names@);
        names.push(piece);
        if e == y {
            assert(inner.subrange(i - x, inner.len() as int) =~= s@.subrange(i as int, y as int));
            assert(string_views(names@) =~= comma_pieces(inner, 0));
            return Some(names);
        }
        assert(inner.subrange(i - x, e - x) =~= s@.subrange(i as int, e as int));
        assert(string_views(names@) + comma_pieces(inner, e + 1 - x) =~= comma_pieces(inner, 0));
        i = e + 1;
    }
}

/// The lowercase form of a string, as `str::to_lowercase` gives it
pub uninterp spec fn lowercase_of(s: Seq<char>) -> Seq<char>;

/// Calls `str::to_lowercase`
#[verifier::external_body]
fn to_lowercase(s: &str) -> (r: String)
    ensures
        r@ == lowercase_of(s@),
{
    s.to_lowercase()
}

/// Whether the byte string `a` sorts before `b`, as `String`'s order compares
/// the bytes of two strings
pub open spec fn bytes_lt(a: Seq<u8>, b: Seq<u8>) -> bool
    decreases a.len(),
{
    if b.len() == 0 {
        false
    } else if a.len() == 0 {
        true
    } else if a[0] != b[0] {
        a[0] < b[0]
    } else {
        bytes_lt(a.drop_first(), b.drop_first())
    }
}

fn bytes_less(a: &[u8], b: &[u8]) -> (r: bool)
    ensures
        r == bytes_lt(a@, b@),
{
    let mut k: usize = 0;
    assert(a@.subrange(0, a@.len() as int) =~= a@);
    assert(b@.subrange(0, b@.len() as int) =~= b@);
    while k < a.len() && k < b.len() && a[k] == b[k]
        invariant
            k <= a@.len(),
            k <= b@.len(),
            bytes_lt(a@, b@) == bytes_lt(a@.subrange(k as int, a@.len() as int), b@.subrange(k as int, b@.len() as int)),
        decreases a@.len() - k,
    {
        assert(a@.subrange(k as int, a@.len() as int).drop_first() =~= a@.subrange(k + 1, a@.len() as int));
        assert(b@.subrange(k as int, b@.len() as int).drop_first() =~= b@.subrange(k + 1, b@.len() as int));
        k += 1;
    }
    if k == b.len() {
        false
    } else if k == a.len() {
        true
    } else {
        a[k] < b[k]
    }
}

/// The key third-party derives sort by: the bytes of the lowercase name
pub open spec fn sort_key(name: Seq<char>) -> Seq<u8> {
    vstd::utf8::encode_utf8(lowercase_of(name))
}

/// The position in `sorted[k..]` of the first name whose key sorts after
/// `key`, which is where a stable sort puts a name with `key`
pub open spec fn slot_for(sorted: Seq<Seq<char>>, key: Seq<u8>, k: int) -> int
    decreases sorted.len() - k,
{
    if k < 0 || k >= sorted.len() {
        sorted.len() as int
    } else if bytes_lt(key, sort_key(sorted[k])) {
        k
    } else {
        slot_for(sorted, key, k + 1)
    }
}

/// The names `ns[..k]` sorted stably by their keys
pub open spec fn sort_by_name(ns: Seq<Seq<char>>, k: int) -> Seq<Seq<char>>
    decreases k,
{
    if k <= 0 || k > ns.len() {
        Seq::empty()
    } else {
        let sorted = sort_by_name(ns, k - 1);
        sorted.insert(slot_for(sorted, sort_key(ns[k - 1]), 0), ns[k - 1])
    }
}

/// The names among `ns` whose macro name is the standard derive at `idx`,
/// in their order
pub open spec fn with_index(ns: Seq<Seq<char>>, idx: usize) -> Seq<Seq<char>> {
    ns.filter(|n: Seq<char>| std_index(after_last_path_sep(n)) == Some(idx))
}

/// The standard derives among `ns`, in the prescribed order, keeping the
/// order of repeats
#[verifier::opaque]
pub open spec fn std_part(ns: Seq<Seq<char>>, upto: int) -> Seq<Seq<char>>
    decreases upto,
{
    if upto <= 0 {
        Seq::empty()
    } else {
        std_part(ns, upto - 1) + with_index(ns, (upto - 1) as usize)
    }
}

/// The derives among `ns` that are not standard
pub open spec fn third_party(ns: Seq<Seq<char>>) -> Seq<Seq<char>> {
    ns.filter(|n: Seq<char>| std_index(after_last_path_sep(n)) is None)
}

/// The canonical order of a derive list
#[verifier::opaque]
pub open spec fn expected_order(ns: Seq<Seq<char>>) -> Seq<Seq<char>> {
    let tp = third_party(ns);
    std_part(ns, 9) + sort_by_name(tp, tp.len() as int)
}

proof fn lemma_sort_prefix(ns: Seq<Seq<char>>, x: Seq<char>, k: int)
    requires
        0 <= k <= ns.len(),
    ensures
        sort_by_name(ns.push(x), k) == sort_by_name(ns, k),
    decreases k,
{
    if k > 0 {
        lemma_sort_prefix(ns, x, k - 1);
        assert(ns.push(x)[k - 1] == ns[k - 1]);
    }
}

proof fn lemma_slot_bound(sorted: Seq<Seq<char>>, key: Seq<u8>, k: int)
    requires
        0 <= k <= sorted.len(),
    ensures
        k <= slot_for(sorted, key, k) <= sorted.len(),
    decreases sorted.len() - k,
{
    if k < sorted.len() && !bytes_lt(key, sort_key(sorted[k])) {
        lemma_slot_bound(sorted, key, k + 1);
    }
}

proof fn lemma_views_push(v: Seq<String>, x: String)
    ensures
        string_views(v.push(x)) == string_views(v).push(x@),
{
    assert(string_views(v.push(x)) =~= string_views(v).push(x@));
}

proof fn lemma_with_index_step(ns: Seq<Seq<char>>, k: int, idx: usize)
    requires
        0 <= k < ns.len(),
    ensures
        with_index(ns.subrange(0, k + 1), idx) == if std_index(after_last_path_sep(ns[k])) == Some(idx) {
            with_index(ns.subrange(0, k), idx).push(ns[k])
        } else {
            with_index(ns.subrange(0, k), idx)
        },
{
    reveal(Seq::filter);
    assert(ns.subrange(0, k + 1).drop_last() =~= ns.subrange(0, k));
}

proof fn lemma_third_party_step(ns: Seq<Seq<char>>, k: int)
    requires
        0 <= k < ns.len(),
    ensures
        third_party(ns.subrange(0, k + 1)) == if std_index(after_last_path_sep(ns[k])) is None {
            third_party(ns.subrange(0, k)).push(ns[k])
        } else {
            third_party(ns.subrange(0, k))
        },
{
    reveal(Seq::filter);
    assert(ns.subrange(0, k + 1).drop_last() =~= ns.subrange(0, k));
}

proof fn lemma_std_part_empty(upto: int)
    ensures
        std_part(Seq::<Seq<char>>::empty(), upto) == Seq::<Seq<char>>::empty(),
    decreases upto,
{
    reveal(std_part);
    reveal(Seq::filter);
    if upto > 0 {
        lemma_std_part_empty(upto - 1);
        assert(with_index(Seq::<Seq<char>>::empty(), (upto - 1) as usize) =~= Seq::<Seq<char>>::empty());
        assert(std_part(Seq::<Seq<char>>::empty(), upto) =~= Seq::<Seq<char>>::empty());
    }
}

proof fn lemma_std_part_step(ns: Seq<Seq<char>>, k: int, upto: int)
    requires
        0 <= k < ns.len(),
        0 <= upto <= 9,
    ensures
        std_part(ns.subrange(0, k + 1), upto).to_multiset() == match std_index(after_last_path_sep(ns[k])) {
            Some(i) => if i < upto {
                std_part(ns.subrange(0, k), upto).to_multiset().insert(ns[k])
            } else {
                std_part(ns.subrange(0, k), upto).to_multiset()
            },
            None => std_part(ns.subrange(0, k), upto).to_multiset(),
        },
    decreases upto,
{
    reveal(std_part);
    broadcast use vstd::multiset::group_multiset_axioms;
    broadcast use vstd::seq_lib::lemma_multiset_commutative;
    broadcast use vstd::seq_lib::to_multiset_build;

    if upto > 0 {
        let idx = (upto - 1) as usize;
        assert(idx == upto - 1);
        lemma_std_part_step(ns, k, upto - 1);
        lemma_with_index_step(ns, k, idx);
        let a = ns.subrange(0, k + 1);
        let b = ns.subrange(0, k);
        assert(std_part(a, upto) == std_part(a, upto - 1) + with_index(a, idx));
        assert(std_part(b, upto) == std_part(b, upto - 1) + with_index(b, idx));
        match std_index(after_last_path_sep(ns[k])) {
            Some(i) => {
                if i < upto - 1 {
                    assert(with_index(a, idx) == with_index(b, idx));
                    let ma = std_part(a, upto - 1).to_multiset();
                    let mb = std_part(b, upto - 1).to_multiset();
                    let w = with_index(b, idx).to_multiset();
                    assert(ma == mb.insert(ns[k]));
                    assert(std_part(a, upto).to_multiset() == ma.add(w));
                    assert(std_part(b, upto).to_multiset() == mb.add(w));
                    assert(mb.insert(ns[k]).add(w) =~= mb.add(w).insert(ns[k]));
                } else if i == upto - 1 {
                    assert(with_index(a, idx) == with_index(b, idx).push(ns[k]));
                    assert(std_part(a, upto).to_multiset() =~= std_part(b, upto).to_multiset().insert(ns[k]));
                } else {
                    assert(std_part(a, upto).to_multiset() =~= std_part(b, upto).to_multiset());
                }
            },
            None => {
                assert(std_part(a, upto).to_multiset() =~= std_part(b, upto).to_multiset());
            },
        }
    }
}

proof fn lemma_partition(ns: Seq<Seq<char>>, k: int)
    requires
        0 <= k <= ns.len(),
    ensures
        (std_part(ns.subrange(0, k), 9) + third_party(ns.subrange(0, k))).to_multiset()
            == ns.subrange(0, k).to_multiset(),
    decreases k,
{
    broadcast use vstd::multiset::group_multiset_axioms;
    broadcast use vstd::seq_lib::lemma_multiset_commutative;
    broadcast use vstd::seq_lib::to_multiset_build;

    reveal(Seq::filter);
    if k == 0 {
        assert(ns.subrange(0, 0) =~= Seq::<Seq<char>>::empty());
        lemma_std_part_empty(9);
        assert(third_party(Seq::<Seq<char>>::empty()) =~= Seq::<Seq<char>>::empty());
        assert(Seq::<Seq<char>>::empty() + Seq::<Seq<char>>::empty() =~= Seq::<Seq<char>>::empty());
    } else {
        lemma_partition(ns, k - 1);
        lemma_std_part_step(ns, k - 1, 9);
        lemma_third_party_step(ns, k - 1);
        let a = ns.subrange(0, k);
        let b = ns.subrange(0, k - 1);
        assert(a =~= b.push(ns[k - 1]));
        assert((std_part(a, 9) + third_party(a)).to_multiset() =~= a.to_multiset());
    }
}

proof fn lemma_sort_multiset(ns: Seq<Seq<char>>, k: int)
    requires
        0 <= k <= ns.len(),
    ensures
        sort_by_name(ns, k).to_multiset() == ns.subrange(0, k).to_multiset(),
    decreases k,
{
    broadcast use vstd::multiset::group_multiset_axioms;
    broadcast use vstd::seq_lib::to_multiset_build;
    broadcast use vstd::seq_lib::to_multiset_insert;

    if k == 0 {
        assert(ns.subrange(0, 0) =~= Seq::<Seq<char>>::empty());
        assert(sort_by_name(ns, 0).to_multiset() =~= vstd::multiset::Multiset::<Seq<char>>::empty());
    } else {
        lemma_sort_multiset(ns, k - 1);
        let sorted = sort_by_name(ns, k - 1);
        let key = sort_key(ns[k - 1]);
        lemma_slot_bound(sorted, key, 0);
        assert(ns.subrange(0, k) =~= ns.subrange(0, k - 1).push(ns[k - 1]));
    }
}

proof fn lemma_bytes_lt_irreflexive(a: Seq<u8>)
    ensures
        !bytes_lt(a, a),
    decreases a.len(),
{
    if a.len() > 0 {
        lemma_bytes_lt_irreflexive(a.drop_first());
    }
}

proof fn lemma_bytes_lt_transitive(a: Seq<u8>, b: Seq<u8>, c: Seq<u8>)
    requires
        bytes_lt(a, b),
        bytes_lt(b, c),
    ensures
        bytes_lt(a, c),
    decreases a.len(),
{
    if a.len() > 0 && b.len() > 0 && c.len() > 0 && a[0] == b[0] && b[0] == c[0] {
        lemma_bytes_lt_transitive(a.drop_first(), b.drop_first(), c.drop_first());
    }
}

proof fn lemma_bytes_lt_total(a: Seq<u8>, b: Seq<u8>)
    ensures
        bytes_lt(a, b) || bytes_lt(b, a) || a == b,
    decreases a.len(),
{
    if a.len() > 0 && b.len() > 0 && a[0] == b[0] {
        lemma_bytes_lt_total(a.drop_first(), b.drop_first());
        if a.drop_first() == b.drop_first() {
            assert(a =~= seq![a[0]] + a.drop_first());
            assert(b =~= seq![b[0]] + b.drop_first());
        }
    } else if a.len() == 0 && b.len() == 0 {
        assert(a =~= b);
    }
}

/// Whether the names `s` are in order of their sort keys
pub open spec fn keys_sorted(s: Seq<Seq<char>>) -> bool {
    forall|a: int, b: int| 0 <= a < b < s.len() ==> !bytes_lt(sort_key(#[trigger] s[b]), sort_key(#[trigger] s[a]))
}

proof fn lemma_slot_for(sorted: Seq<Seq<char>>, key: Seq<u8>, k: int)
    requires
        0 <= k <= sorted.len(),
    ensures
        k <= slot_for(sorted, key, k) <= sorted.len(),
        forall|j: int| k <= j < slot_for(sorted, key, k) ==> !bytes_lt(key, sort_key(#[trigger] sorted[j])),
        slot_for(sorted, key, k) < sorted.len() ==> bytes_lt(key, sort_key(sorted[slot_for(sorted, key, k)])),
    decreases sorted.len() - k,
{
    if k < sorted.len() && !bytes_lt(key, sort_key(sorted[k])) {
        lemma_slot_for(sorted, key, k + 1);
    }
}

proof fn lemma_insert_sorted(sorted: Seq<Seq<char>>, x: Seq<char>)
    requires
        keys_sorted(sorted),
    ensures
        keys_sorted(sorted.insert(slot_for(sorted, sort_key(x), 0), x)),
{
    let key = sort_key(x);
    lemma_slot_for(sorted, key, 0);
    let p = slot_for(sorted, key, 0);
    let r = sorted.insert(p, x);
    assert forall|a: int, b: int| 0 <= a < b < r.len() implies !bytes_lt(sort_key(#[trigger] r[b]), sort_key(#[trigger] r[a])) by {
        if b < p {
            assert(r[a] == sorted[a] && r[b] == sorted[b]);
        } else if b == p {
            assert(r[a] == sorted[a] && r[b] == x);
            assert(!bytes_lt(key, sort_key(sorted[a])));
        } else if a > p {
            assert(r[a] == sorted[a - 1] && r[b] == sorted[b - 1]);
        } else if a == p {
            assert(r[a] == x && r[b] == sorted[b - 1]);
            let kp = sort_key(sorted[p]);
            let kb = sort_key(sorted[b - 1]);
            assert(bytes_lt(key, kp));
            if b - 1 > p {
                assert(!bytes_lt(kb, kp));
                lemma_bytes_lt_total(kb, kp);
                if bytes_lt(kp, kb) {
                    lemma_bytes_lt_transitive(key, kp, kb);
                }
            }
            assert(bytes_lt(key, kb));
            if bytes_lt(kb, key) {
                lemma_bytes_lt_transitive(kb, key, kb);
                lemma_bytes_lt_irreflexive(kb);
            }
        } else {
            assert(a < p && b > p);
            assert(r[a] == sorted[a] && r[b] == sorted[b - 1]);
        }
    }
}

proof fn lemma_sort_sorted(ns: Seq<Seq<char>>, k: int)
    requires
        0 <= k <= ns.len(),
    ensures
        keys_sorted(sort_by_name(ns, k)),
        forall|j: int|
            0 <= j < sort_by_name(ns, k).len() ==> exists|m: int| 0 <= m < k && #[trigger] sort_by_name(ns, k)[j] == ns[m],
    decreases k,
{
    if k > 0 {
        lemma_sort_sorted(ns, k - 1);
        let sorted = sort_by_name(ns, k - 1);
        lemma_insert_sorted(sorted, ns[k - 1]);
        let p = slot_for(sorted, sort_key(ns[k - 1]), 0);
        lemma_slot_bound(sorted, sort_key(ns[k - 1]), 0);
        let r = sort_by_name(ns, k);
        assert forall|j: int| 0 <= j < r.len() implies exists|m: int| 0 <= m < k && #[trigger] r[j] == ns[m] by {
            if j < p {
                assert(r[j] == sorted[j]);
                let m = choose|m: int| 0 <= m < k - 1 && sorted[j] == ns[m];
                assert(r[j] == ns[m]);
            } else if j == p {
                assert(r[j] == ns[k - 1]);
            } else {
                assert(r[j] == sorted[j - 1]);
                let m = choose|m: int| 0 <= m < k - 1 && #[trigger] sorted[j - 1] == ns[m];
                assert(r[j] == ns[m]);
            }
        }
    } else {
        assert(sort_by_name(ns, 0) =~= Seq::<Seq<char>>::empty());
    }
}

proof fn lemma_std_part_ranked(ns: Seq<Seq<char>>, u: int)
    ensures
        forall|j: int| 0 <= j < std_part(ns, u).len() ==> std_index(after_last_path_sep(#[trigger] std_part(ns, u)[j])) is Some,
    decreases u,
{
    reveal(std_part);
    broadcast use Seq::lemma_filter_pred;
    if u > 0 {
        lemma_std_part_ranked(ns, u - 1);
        let a = std_part(ns, u - 1);
        let w = with_index(ns, (u - 1) as usize);
        assert forall|j: int| 0 <= j < std_part(ns, u).len() implies std_index(after_last_path_sep(#[trigger] std_part(ns, u)[j])) is Some by {
            if j < a.len() {
                assert(std_part(ns, u)[j] == a[j]);
            } else {
                assert(std_part(ns, u)[j] == w[j - a.len()]);
            }
        }
    }
}

/// In the canonical order every standard derive comes before every
/// third-party one, and the third-party derives are sorted by the lowercase
/// form of the whole path as written, compared byte by byte: for two of
/// them, the one whose lowercase text is smaller comes first
pub proof fn law_third_party_sorted_by_lowercase_path(ns: Seq<Seq<char>>, i: int, j: int)
    requires
        0 <= i < j < expected_order(ns).len(),
        std_index(after_last_path_sep(expected_order(ns)[i])) is None,
    ensures
        std_index(after_last_path_sep(expected_order(ns)[j])) is None,
        !bytes_lt(
            vstd::utf8::encode_utf8(lowercase_of(expected_order(ns)[j])),
            vstd::utf8::encode_utf8(lowercase_of(expected_order(ns)[i])),
        ),
{
    broadcast use Seq::lemma_filter_pred;
    reveal(expected_order);
    let sp = std_part(ns, 9);
    let tp = third_party(ns);
    let sorted = sort_by_name(tp, tp.len() as int);
    let e = expected_order(ns);
    lemma_std_part_ranked(ns, 9);
    lemma_sort_sorted(tp, tp.len() as int);
    if i < sp.len() {
        assert(e[i] == sp[i]);
    }
    assert(e[i] == sorted[i - sp.len()]);
    assert(e[j] == sorted[j - sp.len()]);
    let m = choose|m: int| 0 <= m < tp.len() && #[trigger] sorted[j - sp.len()] == tp[m];
    assert(std_index(after_last_path_sep(tp[m])) is None);
    assert(!bytes_lt(sort_key(sorted[j - sp.len()]), sort_key(sorted[i - sp.len()])));
}

/// The canonical order lists exactly the derives it was given
///
/// No derive is lost and none is added: the expected order is a
/// rearrangement of the names, repeats included.
pub proof fn law_expected_order_permutes(ns: Seq<Seq<char>>)
    ensures
        expected_order(ns).to_multiset() == ns.to_multiset(),
{
    broadcast use vstd::multiset::group_multiset_axioms;
    broadcast use vstd::seq_lib::lemma_multiset_commutative;

    reveal(expected_order);
    lemma_partition(ns, ns.len() as int);
    let tp = third_party(ns);
    lemma_sort_multiset(tp, tp.len() as int);
    assert(ns.subrange(0, ns.len() as int) =~= ns);
    assert(tp.subrange(0, tp.len() as int) =~= tp);
    assert(expected_order(ns).to_multiset() =~= ns.to_multiset());
}

/// The position of the derive `n` in the prescribed order, judged by its
/// macro name
#[verifier::opaque]
pub open spec fn derive_rank(n: Seq<char>) -> Option<usize> {
    std_index(after_last_path_sep(n))
}

/// Whether `ns` is already in the canonical order: the standard derives
/// `ns[..m]` first, in the prescribed order, then the third-party derives
/// `ns[m..]`, sorted by their lowercase names
pub open spec fn canonical_at(ns: Seq<Seq<char>>, m: int) -> bool {
    &&& 0 <= m <= ns.len()
    &&& forall|i: int| 0 <= i < m ==> (#[trigger] derive_rank(ns[i])) is Some
    &&& forall|i: int| m <= i < ns.len() ==> (#[trigger] derive_rank(ns[i])) is None
    &&& forall|i: int, j: int|
        0 <= i < j < m ==> derive_rank(#[trigger] ns[i]).unwrap() <= derive_rank(#[trigger] ns[j]).unwrap()
    &&& forall|i: int, j: int|
        m <= i < j < ns.len() ==> !bytes_lt(sort_key(#[trigger] ns[j]), sort_key(#[trigger] ns[i]))
}

proof fn lemma_with_index_none(ns: Seq<Seq<char>>, k: int, idx: usize)
    requires
        0 <= k <= ns.len(),
        forall|j: int| 0 <= j < k ==> derive_rank(#[trigger] ns[j]) != Some(idx),
    ensures
        with_index(ns.subrange(0, k), idx) == Seq::<Seq<char>>::empty(),
    decreases k,
{
    reveal(derive_rank);
    reveal(Seq::filter);
    if k == 0 {
        assert(ns.subrange(0, 0) =~= Seq::<Seq<char>>::empty());
        assert(with_index(Seq::<Seq<char>>::empty(), idx) =~= Seq::<Seq<char>>::empty());
    } else {
        lemma_with_index_none(ns, k - 1, idx);
        lemma_with_index_step(ns, k - 1, idx);
    }
}

proof fn lemma_std_part_push(ns: Seq<Seq<char>>, k: int, u: int)
    requires
        0 <= k < ns.len(),
        0 <= u <= 9,
        match derive_rank(ns[k]) {
            Some(i) => forall|j: int| 0 <= j < k ==> match #[trigger] derive_rank(ns[j]) {
                Some(r) => r <= i,
                None => false,
            },
            None => true,
        },
    ensures
        std_part(ns.subrange(0, k + 1), u) == match derive_rank(ns[k]) {
            Some(i) => if i < u {
                std_part(ns.subrange(0, k), u).push(ns[k])
            } else {
                std_part(ns.subrange(0, k), u)
            },
            None => std_part(ns.subrange(0, k), u),
        },
    decreases u,
{
    reveal(std_part);
    reveal(derive_rank);
    let a = ns.subrange(0, k + 1);
    let b = ns.subrange(0, k);
    if u > 0 {
        let idx = (u - 1) as usize;
        assert(idx == u - 1);
        lemma_std_part_push(ns, k, u - 1);
        lemma_with_index_step(ns, k, idx);
        assert(std_part(a, u) == std_part(a, u - 1) + with_index(a, idx));
        assert(std_part(b, u) == std_part(b, u - 1) + with_index(b, idx));
        match derive_rank(ns[k]) {
            Some(i) => {
                if i < idx {
                    assert forall|j: int| 0 <= j < k implies derive_rank(#[trigger] ns[j]) != Some(idx) by {
                        match derive_rank(ns[j]) {
                            Some(r) => {},
                            None => {},
                        }
                    }
                    lemma_with_index_none(ns, k, idx);
                    assert(with_index(a, idx) == Seq::<Seq<char>>::empty());
                    assert(std_part(a, u) =~= std_part(b, u - 1).push(ns[k]));
                    assert(std_part(b, u) =~= std_part(b, u - 1));
                } else if i == idx {
                    assert(std_part(a, u) =~= std_part(b, u).push(ns[k]));
                } else {
                    assert(std_part(a, u) =~= std_part(b, u));
                }
            },
            None => {
                assert(std_part(a, u) =~= std_part(b, u));
            },
        }
    }
}

proof fn lemma_rank_bound(n: Seq<char>)
    ensures
        match derive_rank(n) {
            Some(i) => i < 9,
            None => true,
        },
{
    reveal(derive_rank);
}

proof fn lemma_canonical_std_step(ns: Seq<Seq<char>>, m: int, k: int)
    requires
        0 <= m <= ns.len(),
        0 <= k < m,
        forall|i: int| 0 <= i < m ==> (#[trigger] derive_rank(ns[i])) is Some,
        forall|i: int, j: int|
            0 <= i < j < m ==> derive_rank(#[trigger] ns[i]).unwrap() <= derive_rank(#[trigger] ns[j]).unwrap(),
        std_part(ns.subrange(0, k), 9) == ns.subrange(0, k),
    ensures
        std_part(ns.subrange(0, k + 1), 9) == ns.subrange(0, k + 1),
{
    let x = ns[k];
    lemma_rank_bound(x);
    let i = derive_rank(x).unwrap();
    assert forall|j: int| 0 <= j < k implies match #[trigger] derive_rank(ns[j]) {
        Some(r) => r <= i,
        None => false,
    } by {
        assert(derive_rank(ns[j]) is Some);
        assert(derive_rank(ns[j]).unwrap() <= derive_rank(ns[k]).unwrap());
    }
    lemma_std_part_push(ns, k, 9);
    assert(ns.subrange(0, k + 1) =~= ns.subrange(0, k).push(x));
}

proof fn lemma_canonical_std(ns: Seq<Seq<char>>, m: int, k: int)
    requires
        0 <= m <= ns.len(),
        0 <= k <= ns.len(),
        forall|i: int| 0 <= i < m ==> (#[trigger] derive_rank(ns[i])) is Some,
        forall|i: int| m <= i < ns.len() ==> (#[trigger] derive_rank(ns[i])) is None,
        forall|i: int, j: int|
            0 <= i < j < m ==> derive_rank(#[trigger] ns[i]).unwrap() <= derive_rank(#[trigger] ns[j]).unwrap(),
    ensures
        std_part(ns.subrange(0, k), 9) == ns.subrange(0, if k <= m { k } else { m }),
    decreases k,
{
    if k == 0 {
        assert(ns.subrange(0, 0) =~= Seq::<Seq<char>>::empty());
        lemma_std_part_empty(9);
    } else {
        lemma_canonical_std(ns, m, k - 1);
        if k - 1 < m {
            lemma_canonical_std_step(ns, m, k - 1);
        } else {
            assert(derive_rank(ns[k - 1]) is None);
            lemma_std_part_push(ns, k - 1, 9);
        }
    }
}

proof fn lemma_canonical_tp(ns: Seq<Seq<char>>, m: int, k: int)
    requires
        0 <= m <= ns.len(),
        0 <= k <= ns.len(),
        forall|i: int| 0 <= i < m ==> (#[trigger] derive_rank(ns[i])) is Some,
        forall|i: int| m <= i < ns.len() ==> (#[trigger] derive_rank(ns[i])) is None,
    ensures
        k <= m ==> third_party(ns.subrange(0, k)) == Seq::<Seq<char>>::empty(),
        k > m ==> third_party(ns.subrange(0, k)) == ns.subrange(m, k),
    decreases k,
{
    reveal(derive_rank);
    if k == 0 {
        assert(ns.subrange(0, 0) =~= Seq::<Seq<char>>::empty());
        assert(third_party(Seq::<Seq<char>>::empty()) =~= Seq::<Seq<char>>::empty()) by {
            reveal(Seq::filter);
        }
    } else {
        lemma_canonical_tp(ns, m, k - 1);
        lemma_third_party_step(ns, k - 1);
        if k - 1 >= m {
            assert(derive_rank(ns[k - 1]) is None);
            assert(ns.subrange(m, k) =~= ns.subrange(m, k - 1).push(ns[k - 1]));
            if k - 1 == m {
                assert(ns.subrange(m, m) =~= Seq::<Seq<char>>::empty());
            }
        } else {
            assert(derive_rank(ns[k - 1]) is Some);
        }
    }
}

proof fn lemma_slot_past_end(sorted: Seq<Seq<char>>, key: Seq<u8>, k: int)
    requires
        0 <= k <= sorted.len(),
        forall|j: int| k <= j < sorted.len() ==> !bytes_lt(key, sort_key(#[trigger] sorted[j])),
    ensures
        slot_for(sorted, key, k) == sorted.len(),
    decreases sorted.len() - k,
{
    if k < sorted.len() {
        lemma_slot_past_end(sorted, key, k + 1);
    }
}

proof fn lemma_sorted_fixed(tp: Seq<Seq<char>>, k: int)
    requires
        0 <= k <= tp.len(),
        forall|i: int, j: int| 0 <= i < j < tp.len() ==> !bytes_lt(sort_key(#[trigger] tp[j]), sort_key(#[trigger] tp[i])),
    ensures
        sort_by_name(tp, k) == tp.subrange(0, k),
    decreases k,
{
    if k == 0 {
        assert(tp.subrange(0, 0) =~= Seq::<Seq<char>>::empty());
    } else {
        lemma_sorted_fixed(tp, k - 1);
        let sorted = tp.subrange(0, k - 1);
        assert forall|j: int| 0 <= j < sorted.len() implies !bytes_lt(sort_key(tp[k - 1]), sort_key(#[trigger] sorted[j])) by {
            assert(sorted[j] == tp[j]);
        }
        lemma_slot_past_end(sorted, sort_key(tp[k - 1]), 0);
        assert(sorted.insert(sorted.len() as int, tp[k - 1]) =~= tp.subrange(0, k));
    }
}

/// A derive list already in the canonical order is its own expected order,
/// so the rule never flags it
pub proof fn law_canonical_list_is_kept(ns: Seq<Seq<char>>, m: int)
    requires
        canonical_at(ns, m),
    ensures
        expected_order(ns) == ns,
{
    reveal(expected_order);
    let n = ns.len() as int;
    lemma_canonical_std(ns, m, n);
    lemma_canonical_tp(ns, m, n);
    assert(ns.subrange(0, n) =~= ns);
    let tp = third_party(ns);
    if m == n {
        assert(tp == Seq::<Seq<char>>::empty());
    } else {
        assert(tp == ns.subrange(m, n));
    }
    assert forall|i: int, j: int| 0 <= i < j < tp.len() implies !bytes_lt(sort_key(#[trigger] tp[j]), sort_key(#[trigger] tp[i])) by {
        assert(tp[i] == ns[m + i]);
        assert(tp[j] == ns[m + j]);
    }
    lemma_sorted_fixed(tp, tp.len() as int);
    assert(tp.subrange(0, tp.len() as int) =~= tp);
    assert(ns.subrange(0, m) + ns.subrange(m, n) =~= ns);
}

fn push_group(names: &[String], idx: usize, out: &mut Vec<String>)
    ensures
        string_views(final(out)@) == string_views(old(out)@) + with_index(string_views(names@), idx),
{
    let ghost ns = string_views(names@);
    let ghost start = string_views(out@);
    let n = names.len();
    let mut k: usize = 0;
    while k < n
        invariant
            n == names@.len(),
            ns == string_views(names@),
            k <= n,
            string_views(out@) == start + with_index(ns.subrange(0, k as int), idx),
        decreases n - k,
    {
        let ghost before = out@;
        proof {
            lemma_with_index_step(ns, k as int, idx);
        }
        match std_derive_index(macro_name(names[k].as_str())) {
            Some(i) => {
                if i == idx {
                    out.push(names[k].clone());
                    proof {
                        lemma_views_push(before, names@[k as int]);
                    }
                }
            },
            None => {},
        }
        k += 1;
    }
    assert(ns.subrange(0, n as int) =~= ns);
}

/// Computes the canonical ordering for a list of derive names
///
/// Standard derives are placed first in their prescribed order, followed by
/// third-party derives sorted case-insensitively; both sorts keep the order
/// of names that compare equal.
pub fn compute_expected_order(names: &[String]) -> (r: Vec<String>)
    ensures
        string_views(r@) == expected_order(string_views(names@)),
        string_views(r@).to_multiset() == string_views(names@).to_multiset(),
        forall|i: int, j: int|
            0 <= i < j < r@.len() && std_index(after_last_path_sep(#[trigger] r@[i]@)) is None ==> std_index(
                after_last_path_sep(#[trigger] r@[j]@),
            ) is None && !bytes_lt(
                vstd::utf8::encode_utf8(lowercase_of(r@[j]@)),
                vstd::utf8::encode_utf8(lowercase_of(r@[i]@)),
            ),
{
    let ghost ns = string_views(names@);
    let n = names.len();
    let mut out: Vec<String> = Vec::new();
    let mut idx: usize = 0;
    proof {
        reveal(std_part);
    }
    while idx < 9
        invariant
            ns == string_views(names@),
            idx <= 9,
            string_views(out@) == std_part(ns, idx as int),
        decreases 9 - idx,
    {
        push_group(names, idx, &mut out);
        proof {
            reveal(std_part);
        }
        idx += 1;
    }
    let mut sorted: Vec<String> = Vec::new();
    let mut keys: Vec<String> = Vec::new();
    let mut k: usize = 0;
    while k < n
        invariant
            n == names@.len(),
            ns == string_views(names@),
            k <= n,
            string_views(sorted@) == sort_by_name(third_party(ns.subrange(0, k as int)), third_party(ns.subrange(0, k as int)).len() as int),
            keys@.len() == sorted@.len(),
            forall|j: int| 0 <= j < keys@.len() ==> #[trigger] keys@[j]@ == lowercase_of(sorted@[j]@),
        decreases n - k,
    {
        let ghost tp = third_party(ns.subrange(0, k as int));
        proof {
            lemma_third_party_step(ns, k as int);
        }
        match std_derive_index(macro_name(names[k].as_str())) {
            Some(_) => {},
            None => {
                let name = &names[k];
                let key = to_lowercase(name.as_str());
                let kb = key.as_str().as_bytes();
                let ghost sv = string_views(sorted@);
                proof {
                    lemma_slot_bound(sv, sort_key(name@), 0);
                }
                let mut p: usize = 0;
                while p < sorted.len() && !bytes_less(kb, keys[p].as_str().as_bytes())
                    invariant
                        sv == string_views(sorted@),
                        keys@.len() == sorted@.len(),
                        forall|j: int| 0 <= j < keys@.len() ==> #[trigger] keys@[j]@ == lowercase_of(sorted@[j]@),
                        kb@ == sort_key(name@),
                        p <= sorted@.len(),
                        slot_for(sv, sort_key(name@), p as int) == slot_for(sv, sort_key(name@), 0),
                    decreases sorted@.len() - p,
                {
                    assert(keys@[p as int]@ == lowercase_of(sorted@[p as int]@));
                    p += 1;
                }
                let ghost old_keys = keys@;
                let ghost old_sorted = sorted@;
                sorted.insert(p, name.clone());
                keys.insert(p, key);
                proof {
                    lemma_sort_prefix(tp, name@, tp.len() as int);
                    assert(string_views(sorted@) =~= sv.insert(p as int, name@));
                    assert forall|j: int| 0 <= j < keys@.len() implies #[trigger] keys@[j]@ == lowercase_of(sorted@[j]@) by {
                        if j < p {
                            assert(keys@[j] == old_keys[j] && sorted@[j] == old_sorted[j]);
                        } else if j > p {
                            assert(keys@[j] == old_keys[j - 1] && sorted@[j] == old_sorted[j - 1]);
                        }
                    }
                }
            },
        }
        k += 1;
    }
    assert(ns.subrange(0, n as int) =~= ns);
    let mut j: usize = 0;
    let ghost base = string_views(out@);
    while j < sorted.len()
        invariant
            j <= sorted@.len(),
            string_views(out@) == base + string_views(sorted@).subrange(0, j as int),
        decreases sorted@.len() - j,
    {
        let ghost before = out@;
        out.push(sorted[j].clone());
        proof {
            lemma_views_push(before, sorted@[j as int]);
        }
        j += 1;
        assert(string_views(out@) =~= base + string_views(sorted@).subrange(0, j as int));
    }
    assert(string_views(sorted@).subrange(0, j as int) =~= string_views(sorted@));
    proof {
        reveal(expected_order);
        let e = string_views(out@);
        law_expected_order_permutes(ns);
        assert forall|a: int, b: int|
            0 <= a < b < out@.len() && std_index(after_last_path_sep(#[trigger] out@[a]@)) is None implies std_index(
                after_last_path_sep(#[trigger] out@[b]@),
            ) is None && !bytes_lt(
                vstd::utf8::encode_utf8(lowercase_of(out@[b]@)),
                vstd::utf8::encode_utf8(lowercase_of(out@[a]@)),
            ) by {
            assert(e[a] == out@[a]@ && e[b] == out@[b]@);
            law_third_party_sorted_by_lowercase_path(ns, a, b);
        }
    }
    out
}


/// `ns` joined with `", "` between neighbours
pub open spec fn comma_joined(ns: Seq<Seq<char>>) -> Seq<char>
    decreases ns.len(),
{
    if ns.len() == 0 {
        Seq::empty()
    } else if ns.len() == 1 {
        ns[0]
    } else {
        comma_joined(ns.drop_last()) + ", "@ + ns.last()
    }
}

/// Joins the names with `", "` between neighbours
fn join_comma(names: &[String]) -> (r: String)
    ensures
        r@ == comma_joined(string_views(names@)),
{
    let ghost ns = string_views(names@);
    let mut out = String::new();
    let n = names.len();
    let mut k: usize = 0;
    while k < n
        invariant
            n == names@.len(),
            ns == string_views(names@),
            k <= n,
            out@ == comma_joined(ns.subrange(0, k as int)),
        decreases n - k,
    {
        assert(ns.subrange(0, k + 1).drop_last() =~= ns.subrange(0, k as int));
        if k > 0 {
            append(&mut out, ", ");
        }
        append(&mut out, names[k].as_str());
        k += 1;
    }
    assert(ns.subrange(0, n as int) =~= ns);
    out
}

/// Whether two lists of strings hold the same strings in the same order
fn same_names(a: &[String], b: &[String]) -> (r: bool)
    ensures
        r == (string_views(a@) == string_views(b@)),
{
    if a.len() != b.len() {
        assert(string_views(a@).len() != string_views(b@).len());
        return false;
    }
    let n = a.len();
    let mut k: usize = 0;
    while k < n
        invariant
            n == a@.len(),
            n == b@.len(),
            k <= n,
            forall|j: int| 0 <= j < k ==> #[trigger] a@[j]@ == b@[j]@,
        decreases n - k,
    {
        let x = chars_of(a[k].as_str());
        let y = chars_of(b[k].as_str());
        if !crate::text::same_chars(x.as_slice(), y.as_slice()) {
            assert(string_views(a@)[k as int] != string_views(b@)[k as int]);
            return false;
        }
        k += 1;
    }
    assert(string_views(a@) =~= string_views(b@));
    true
}

/// What the rule reports of an attribute with the text `text` spanning
/// `start..end`
pub open spec fn derive_order_findings(text: Seq<char>, start: usize, end: usize) -> Seq<
    (Seq<char>, Seq<char>, usize, usize),
> {
    match derive_names(text) {
        None => Seq::empty(),
        Some(ns) => if ns.len() <= 1 || expected_order(ns) == ns {
            Seq::empty()
        } else {
            seq![
                (
                    "lint.derive-order"@,
                    "derive macros are not in canonical order; expected: "@ + comma_joined(
                        expected_order(ns),
                    ),
                    start,
                    end,
                ),
            ]
        },
    }
}

impl DeriveOrder {
    /// Checks one attribute item: a derive list out of the canonical order
    /// gets one warning that spells out the expected order
    #[verifier::spinoff_prover]
    pub fn check_attribute_item(&self, t: &SyntaxTree, node: usize) -> (r: Vec<Diagnostic>)
        requires
            node < t.size(),
        ensures
            all_under(diag_views(r@), "lint.derive-order"@),
            diag_views(r@) == derive_order_findings(
                text_of(*t, node as int),
                t.node_at(node as int).start,
                t.node_at(node as int).end,
            ),
    {
        let n = t.node(node);
        let ghost text = text_of(*t, node as int);
        assert(n.text@ == text);
        let names = match extract_derive_names(n.text.as_str()) {
            Some(v) => v,
            None => {
                let out: Vec<Diagnostic> = Vec::new();
                assert(diag_views(out@) =~= Seq::empty());
                return out;
            },
        };
        let ghost ns = string_views(names@);
        assert(derive_names(text) == Some(ns));
        assert(ns.len() == names@.len());
        if names.len() <= 1 {
            let out: Vec<Diagnostic> = Vec::new();
            assert(diag_views(out@) =~= Seq::empty());
            return out;
        }
        let expected = compute_expected_order(names.as_slice());
        assert(string_views(expected@) == expected_order(ns));
        if same_names(names.as_slice(), expected.as_slice()) {
            let out: Vec<Diagnostic> = Vec::new();
            assert(diag_views(out@) =~= Seq::empty());
            return out;
        }
        let mut message = String::new();
        append(&mut message, "derive macros are not in canonical order; expected: ");
        let joined = join_comma(expected.as_slice());
        append(&mut message, joined.as_str());
        assert(message@ == "derive macros are not in canonical order; expected: "@ + comma_joined(expected_order(ns)));
        let d = Diagnostic::new("lint.derive-order", message, n.start, n.end);
        let mut out: Vec<Diagnostic> = Vec::new();
        out.push(d);
        assert(diag_views(out@) =~= seq![diag_view(d)]);
        out
    }
}

} // verus!
