//! Flags a `struct` or `enum` that has no `Send`, `Sync`, or `Unpin` test
//!
//! A type that quietly loses one of these traits breaks callers far away from
//! the field that caused it. The tests pin the traits, so the loss surfaces at
//! the definition instead.
pub mod scan;

use vstd::prelude::*;

use crate::diagnostic::{all_under, diag_views, Diagnostic};
use crate::syntax::SyntaxTree;
use self::scan::{assertions, file_findings, walk, CallView, CandidateView, Entry, FileScan, Scope};

use crate::text::{
    after_last_path_sep, after_last_path_sep_at, alphanumeric, before_char, before_char_at,
    char_is_alphanumeric, chars_of, find_char, find_from, lemma_find_from, range_is, slice_of,
    strip_prefix, strip_prefix_at, strip_suffix, strip_suffix_at, string_of, trim, trim_at,
    trim_start,
};

verus! {

broadcast use vstd::seq_lib::group_seq_properties;

/// Flags a `struct` or `enum` that has no `Send`, `Sync`, or `Unpin` test
///
/// A call proves a trait when it sits in a test, names the type in a
/// turbofish, and resolves to a callee whose generics carry that bound. A
/// `#[test]` whose name starts with `trait_not_send`, `trait_not_sync`, or
/// `trait_not_unpin` counts too, when a comment gives the reason and puts
/// the type in backticks.
pub struct MissingTraitTests;

/// One of the three traits every custom type must have a test for
#[derive(Copy, Clone, Eq, PartialEq, Ord, PartialOrd, Hash, Debug)]
pub enum AutoTrait {
    Send,
    Sync,
    Unpin,
}

/// The name of a trait as it appears in Rust source
pub open spec fn trait_name(t: AutoTrait) -> Seq<char> {
    match t {
        AutoTrait::Send => "Send"@,
        AutoTrait::Sync => "Sync"@,
        AutoTrait::Unpin => "Unpin"@,
    }
}

/// The name a negative test for a trait must start with
pub open spec fn negative_prefix(t: AutoTrait) -> Seq<char> {
    match t {
        AutoTrait::Send => "trait_not_send"@,
        AutoTrait::Sync => "trait_not_sync"@,
        AutoTrait::Unpin => "trait_not_unpin"@,
    }
}

/// The auto trait a bound names, if it names one
pub open spec fn trait_of_bound(bound: Seq<char>) -> Option<AutoTrait> {
    let b = trim(bound);
    if b == "Send"@ {
        Some(AutoTrait::Send)
    } else if b == "Sync"@ {
        Some(AutoTrait::Sync)
    } else if b == "Unpin"@ {
        Some(AutoTrait::Unpin)
    } else {
        None
    }
}

impl AutoTrait {
    /// The three traits, in the order the diagnostic lists them
    pub const ALL: [AutoTrait; 3] = [AutoTrait::Send, AutoTrait::Sync, AutoTrait::Unpin];

    /// Returns the auto trait a bound names, if it names one
    pub fn from_bound(bound: &str) -> (r: Option<Self>)
        ensures
            r == trait_of_bound(bound@),
    {
        let s = chars_of(bound);
        let (a, b) = trim_at(s.as_slice(), 0, s.len());
        assert(s@.subrange(0, s@.len() as int) =~= s@);
        if range_is(s.as_slice(), a, b, "Send") {
            Some(AutoTrait::Send)
        } else if range_is(s.as_slice(), a, b, "Sync") {
            Some(AutoTrait::Sync)
        } else if range_is(s.as_slice(), a, b, "Unpin") {
            Some(AutoTrait::Unpin)
        } else {
            None
        }
    }

    /// Returns the name a negative test for this trait must start with
    pub fn negative_test_prefix(self) -> (r: &'static str)
        ensures
            r@ == negative_prefix(self),
    {
        match self {
            AutoTrait::Send => "trait_not_send",
            AutoTrait::Sync => "trait_not_sync",
            AutoTrait::Unpin => "trait_not_unpin",
        }
    }

    /// Returns the trait name as it appears in Rust source
    pub fn as_str(self) -> (r: &'static str)
        ensures
            r@ == trait_name(self),
    {
        match self {
            AutoTrait::Send => "Send",
            AutoTrait::Sync => "Sync",
            AutoTrait::Unpin => "Unpin",
        }
    }
}

/// Whether `w` is a component of the `/`-separated path `s` at position `i`
pub open spec fn component_at(s: Seq<char>, i: int, w: Seq<char>) -> bool {
    &&& 0 <= i
    &&& i + w.len() <= s.len()
    &&& s.subrange(i, i + w.len()) == w
    &&& (i == 0 || s[i - 1] == '/')
    &&& (i + w.len() == s.len() || s[i + w.len()] == '/')
}

/// Whether a `tests` or `benches` component starts at position `i`
pub open spec fn test_dir_at(path: Seq<char>, i: int) -> bool {
    component_at(path, i, "tests"@) || component_at(path, i, "benches"@)
}

/// Whether a path has a `tests` or `benches` component
pub open spec fn test_target(path: Seq<char>) -> bool {
    exists|i: int| #[trigger] test_dir_at(path, i)
}

fn component_in(s: &[char], i: usize, word: &str) -> (r: bool)
    requires
        i <= s@.len(),
    ensures
        r == component_at(s@, i as int, word@),
{
    let w = chars_of(word);
    let n = s.len();
    if w.len() > n - i {
        return false;
    }
    let end = i + w.len();
    range_is(s, i, end, word) && (i == 0 || s[i - 1] == '/') && (end == n || s[end] == '/')
}

/// Returns whether any component of a path is `tests` or `benches`
///
/// Cargo builds those directories only for test and benchmark targets, so the
/// types there are fixtures. Components are separated by `/`.
pub fn is_test_target(path: &str) -> (r: bool)
    ensures
        r == test_target(path@),
{
    let s = chars_of(path);
    let n = s.len();
    let mut i: usize = 0;
    while i < n
        invariant
            n == s@.len(),
            i <= n,
            s@ == path@,
            forall|j: int| 0 <= j < i ==> !#[trigger] test_dir_at(s@, j),
        decreases n - i,
    {
        if component_in(s.as_slice(), i, "tests") || component_in(s.as_slice(), i, "benches") {
            assert(test_dir_at(s@, i as int));
            return true;
        }
        i += 1;
    }
    if component_in(s.as_slice(), n, "tests") || component_in(s.as_slice(), n, "benches") {
        assert(test_dir_at(s@, n as int));
        return true;
    }
    assert forall|j: int| !#[trigger] test_dir_at(s@, j) by {
        if 0 <= j < n {
        } else if j == n {
        } else {
        }
    }
    false
}

/// The text inside `#[cfg(...)]`, if the attribute is a `cfg`
pub open spec fn cfg_args(attribute: Seq<char>) -> Option<Seq<char>> {
    match strip_prefix(trim(attribute), "#["@) {
        None => None,
        Some(a) => match strip_suffix(a, "]"@) {
            None => None,
            Some(b) => match strip_prefix(trim(b), "cfg"@) {
                None => None,
                Some(c) => match strip_prefix(trim_start(c), "("@) {
                    None => None,
                    Some(d) => strip_suffix(d, ")"@),
                },
            },
        },
    }
}

fn cfg_arguments_range(s: &[char]) -> (r: Option<(usize, usize)>)
    ensures
        match r {
            Some((a, b)) => a <= b <= s@.len() && cfg_args(s@) == Some(s@.subrange(a as int, b as int)),
            None => cfg_args(s@) is None,
        },
{
    let n = s.len();
    assert(s@.subrange(0, n as int) =~= s@);
    let (a0, b0) = trim_at(s, 0, n);
    let open = chars_of("#[");
    let close = chars_of("]");
    let cfg = chars_of("cfg");
    let paren = chars_of("(");
    let end = chars_of(")");
    let a1 = match strip_prefix_at(s, a0, b0, open.as_slice()) {
        Some(k) => k,
        None => {
            return None;
        },
    };
    let b1 = match strip_suffix_at(s, a1, b0, close.as_slice()) {
        Some(k) => k,
        None => {
            return None;
        },
    };
    let (a2, b2) = trim_at(s, a1, b1);
    let a3 = match strip_prefix_at(s, a2, b2, cfg.as_slice()) {
        Some(k) => k,
        None => {
            return None;
        },
    };
    let a4 = crate::text::trim_start_at(s, a3, b2);
    let a5 = match strip_prefix_at(s, a4, b2, paren.as_slice()) {
        Some(k) => k,
        None => {
            return None;
        },
    };
    match strip_suffix_at(s, a5, b2, end.as_slice()) {
        Some(k) => Some((a5, k)),
        None => None,
    }
}

/// Returns the text inside `#[cfg(...)]`, if the attribute is a `cfg`
pub fn cfg_arguments(attribute: &str) -> (r: Option<&str>)
    ensures
        match r {
            Some(t) => cfg_args(attribute@) == Some(t@),
            None => cfg_args(attribute@) is None,
        },
{
    let s = chars_of(attribute);
    match cfg_arguments_range(s.as_slice()) {
        Some((a, b)) => Some(slice_of(attribute, s.as_slice(), a, b)),
        None => None,
    }
}

/// Whether a character belongs to a word of a `cfg` predicate
pub open spec fn word_char(c: char) -> bool {
    alphanumeric(c) || c == '_'
}

/// The number of `"` characters among the first `n` of `s`
pub open spec fn quotes_before(s: Seq<char>, n: int) -> nat
    decreases n,
{
    if n <= 0 {
        0
    } else {
        quotes_before(s, n - 1) + (if s[n - 1] == '"' {
            1nat
        } else {
            0nat
        })
    }
}

/// Whether the word `test` stands at position `i` outside string literals
///
/// A quote ends a word as any separator does, and the text between a pair of
/// quotes is a string literal.
pub open spec fn test_word_at(s: Seq<char>, i: int) -> bool {
    &&& 0 <= i
    &&& i + 4 <= s.len()
    &&& s.subrange(i, i + 4) == "test"@
    &&& (i == 0 || s[i - 1] == '"' || !word_char(s[i - 1]))
    &&& (i + 4 == s.len() || s[i + 4] == '"' || !word_char(s[i + 4]))
    &&& quotes_before(s, i) % 2 == 0
}

/// Whether an attribute is a `cfg` that names the `test` predicate
pub open spec fn mentions_test(attribute: Seq<char>) -> bool {
    match cfg_args(attribute) {
        None => false,
        Some(args) => test_word_in(args),
    }
}

/// Whether the word `test` stands anywhere in `args` outside string literals
pub open spec fn test_word_in(args: Seq<char>) -> bool {
    exists|i: int| #[trigger] test_word_at(args, i)
}

fn has_test_word(s: &[char], a: usize, b: usize) -> (r: bool)
    requires
        a <= b <= s@.len(),
    ensures
        r == test_word_in(s@.subrange(a as int, b as int)),
{
    let ghost t = s@.subrange(a as int, b as int);
    let mut even = true;
    let mut i = a;
    while i < b
        invariant
            a <= i <= b <= s@.len(),
            t == s@.subrange(a as int, b as int),
            even == (quotes_before(t, i - a) % 2 == 0),
            forall|j: int| 0 <= j < i - a ==> !#[trigger] test_word_at(t, j),
        decreases b - i,
    {
        if b - i >= 4 {
            assert(t.subrange(i - a, i - a + 4) =~= s@.subrange(i as int, i + 4));
        }
        if even && b - i >= 4 && range_is(s, i, i + 4, "test") {
            let before_ok = i == a || s[i - 1] == '"' || !char_is_alphanumeric(s[i - 1]) && s[i - 1]
                != '_';
            let after_ok = i + 4 == b || s[i + 4] == '"' || !char_is_alphanumeric(s[i + 4]) && s[i
                + 4] != '_';
            if before_ok && after_ok {
                assert(test_word_at(t, i - a));
                return true;
            }
        }
        assert(!test_word_at(t, i - a));
        if s[i] == '"' {
            even = !even;
        }
        i += 1;
    }
    assert forall|j: int| !#[trigger] test_word_at(t, j) by {
        if j < 0 || j >= i - a {
        }
    }
    false
}

/// Returns whether an attribute is a `cfg` that names the `test` predicate
///
/// The check skips string literals, so `#[cfg(feature = "test")]` does not
/// count while `#[cfg(any(test, unix))]` does.
pub fn cfg_mentions_test(attribute: &str) -> (r: bool)
    ensures
        r == mentions_test(attribute@),
{
    let s = chars_of(attribute);
    match cfg_arguments_range(s.as_slice()) {
        Some((a, b)) => {
            let r = has_test_word(s.as_slice(), a, b);
            let ghost args = s@.subrange(a as int, b as int);
            assert(cfg_args(attribute@) == Some(args));
            r
        },
        None => false,
    }
}

/// Whether an attribute marks a test, such as `#[test]`
///
/// Arguments are dropped before the path is compared, and the last segment
/// of the path must read `test`.
pub open spec fn test_attribute(attribute: Seq<char>) -> bool {
    match strip_prefix(trim(attribute), "#["@) {
        None => false,
        Some(a) => match strip_suffix(a, "]"@) {
            None => false,
            Some(b) => trim(after_last_path_sep(trim(before_char(b, '(')))) == "test"@,
        },
    }
}

/// Returns whether an attribute marks a test, such as `#[test]`
///
/// Arguments are dropped before the path is compared, so
/// `#[tokio::test(flavor = "multi_thread")]` counts. Dropping them also keeps
/// `#[cfg(test)]` out, since its path is `cfg`.
pub fn is_test_attribute(attribute: &str) -> (r: bool)
    ensures
        r == test_attribute(attribute@),
{
    let s = chars_of(attribute);
    let n = s.len();
    assert(s@.subrange(0, n as int) =~= s@);
    let (a0, b0) = trim_at(s.as_slice(), 0, n);
    let open = chars_of("#[");
    let close = chars_of("]");
    let a1 = match strip_prefix_at(s.as_slice(), a0, b0, open.as_slice()) {
        Some(k) => k,
        None => {
            return false;
        },
    };
    let b1 = match strip_suffix_at(s.as_slice(), a1, b0, close.as_slice()) {
        Some(k) => k,
        None => {
            return false;
        },
    };
    let b2 = before_char_at(s.as_slice(), a1, b1, '(');
    let (a3, b3) = trim_at(s.as_slice(), a1, b2);
    let a4 = after_last_path_sep_at(s.as_slice(), a3, b3);
    let (a5, b5) = trim_at(s.as_slice(), a4, b3);
    range_is(s.as_slice(), a5, b5, "test")
}

/// The position after the run of `x` and `y` characters that starts at `i`
pub open spec fn lead_in(t: Seq<char>, i: int, x: char, y: char) -> int
    decreases t.len() - i,
{
    if 0 <= i < t.len() && (t[i] == x || t[i] == y) {
        lead_in(t, i + 1, x, y)
    } else {
        i
    }
}

/// `t` without the run of `x` and `y` characters it starts with
pub open spec fn skip_lead(t: Seq<char>, x: char, y: char) -> Seq<char> {
    t.subrange(lead_in(t, 0, x, y), t.len() as int)
}

proof fn lemma_lead_in_shift(s: Seq<char>, a: int, b: int, k: int, x: char, y: char)
    requires
        0 <= a <= k <= b <= s.len(),
        forall|j: int| a <= j < k ==> s[j] == x || s[j] == y,
    ensures
        lead_in(s.subrange(a, b), 0, x, y) == lead_in(s.subrange(a, b), k - a, x, y),
    decreases k - a,
{
    if k > a {
        lemma_lead_in_shift(s, a, b, k - 1, x, y);
    }
}

fn skip_lead_at(s: &[char], a: usize, b: usize, x: char, y: char) -> (r: usize)
    requires
        a <= b <= s@.len(),
    ensures
        a <= r <= b,
        s@.subrange(r as int, b as int) == skip_lead(s@.subrange(a as int, b as int), x, y),
{
    let mut k = a;
    while k < b && (s[k] == x || s[k] == y)
        invariant
            a <= k <= b <= s@.len(),
            forall|j: int| a <= j < k ==> s@[j] == x || s@[j] == y,
        decreases b - k,
    {
        k += 1;
    }
    proof {
        let t = s@.subrange(a as int, b as int);
        lemma_lead_in_shift(s@, a as int, b as int, k as int, x, y);
        assert(lead_in(t, k - a, x, y) == k - a);
        assert(s@.subrange(k as int, b as int) =~= t.subrange(k - a, t.len() as int));
    }
    k
}

/// A comment's text with its markers removed
pub open spec fn comment_text(comment: Seq<char>) -> Seq<char> {
    let t = trim(comment);
    match strip_prefix(t, "/*"@) {
        Some(inner) => {
            let inner = match strip_suffix(inner, "*/"@) {
                Some(x) => x,
                None => inner,
            };
            skip_lead(inner, '*', '!')
        },
        None => match strip_prefix(t, "//"@) {
            None => t,
            Some(inner) => skip_lead(inner, '/', '!'),
        },
    }
}

/// Returns a comment's text with its markers removed
pub fn comment_body(comment: &str) -> (r: &str)
    ensures
        r@ == comment_text(comment@),
{
    let s = chars_of(comment);
    let n = s.len();
    assert(s@.subrange(0, n as int) =~= s@);
    let (a0, b0) = trim_at(s.as_slice(), 0, n);
    let block = chars_of("/*");
    let block_end = chars_of("*/");
    let line = chars_of("//");
    if let Some(a1) = strip_prefix_at(s.as_slice(), a0, b0, block.as_slice()) {
        let b1 = match strip_suffix_at(s.as_slice(), a1, b0, block_end.as_slice()) {
            Some(k) => k,
            None => b0,
        };
        let a2 = skip_lead_at(s.as_slice(), a1, b1, '*', '!');
        return slice_of(comment, s.as_slice(), a2, b1);
    }
    match strip_prefix_at(s.as_slice(), a0, b0, line.as_slice()) {
        None => slice_of(comment, s.as_slice(), a0, b0),
        Some(a1) => {
            let a2 = skip_lead_at(s.as_slice(), a1, b0, '/', '!');
            slice_of(comment, s.as_slice(), a2, b0)
        },
    }
}

/// The bare name of a possibly qualified, possibly generic type
pub open spec fn base_name_of(text: Seq<char>) -> Option<Seq<char>> {
    let name = trim(after_last_path_sep(before_char(text, '<')));
    if name.len() == 0 {
        None
    } else {
        Some(name)
    }
}

fn base_name_range(s: &[char], a: usize, b: usize) -> (r: Option<(usize, usize)>)
    requires
        a <= b <= s@.len(),
    ensures
        match r {
            Some((x, y)) => a <= x <= y <= b && base_name_of(s@.subrange(a as int, b as int))
                == Some(s@.subrange(x as int, y as int)),
            None => base_name_of(s@.subrange(a as int, b as int)) is None,
        },
{
    let b1 = before_char_at(s, a, b, '<');
    let a2 = after_last_path_sep_at(s, a, b1);
    let (a3, b3) = trim_at(s, a2, b1);
    if a3 == b3 {
        None
    } else {
        Some((a3, b3))
    }
}

/// Returns the bare name of a possibly qualified, possibly generic type
///
/// Given `std::rc::Rc<T>`, returns `Rc`. Text with no name at all, such as a
/// run of spaces, returns [`None`].
pub fn base_name(text: &str) -> (r: Option<&str>)
    ensures
        match r {
            Some(t) => base_name_of(text@) == Some(t@),
            None => base_name_of(text@) is None,
        },
{
    let s = chars_of(text);
    let n = s.len();
    assert(s@.subrange(0, n as int) =~= s@);
    match base_name_range(s.as_slice(), 0, n) {
        Some((x, y)) => Some(slice_of(text, s.as_slice(), x, y)),
        None => None,
    }
}

/// The ranges of the pieces of `t[start..]` that backticks separate
pub open spec fn tick_pieces(t: Seq<char>, start: int) -> Seq<(usize, usize)>
    decreases t.len() - start,
{
    if start < 0 || start > t.len() {
        Seq::empty()
    } else {
        let k = find_from(t, '`', start, t.len() as int);
        if k < 0 {
            seq![(start as usize, t.len() as usize)]
        } else {
            proof {
                lemma_find_from(t, '`', start, t.len() as int);
            }
            seq![(start as usize, k as usize)] + tick_pieces(t, k + 1)
        }
    }
}

/// The base names of every other piece, from piece `i` on
pub open spec fn names_in(t: Seq<char>, pieces: Seq<(usize, usize)>, i: int) -> Seq<Seq<char>>
    decreases pieces.len() + 1 - i,
{
    if i < 0 || i >= pieces.len() {
        Seq::empty()
    } else {
        (match base_name_of(t.subrange(pieces[i].0 as int, pieces[i].1 as int)) {
            Some(n) => seq![n],
            None => Seq::empty(),
        }) + names_in(t, pieces, i + 2)
    }
}

/// The type names a comment puts in backticks
pub open spec fn backticked(t: Seq<char>) -> Seq<Seq<char>> {
    names_in(t, tick_pieces(t, 0), 1)
}

/// Whether every range in `r` is ordered and ends by `n`
pub open spec fn ranges_within(r: Seq<(usize, usize)>, n: int) -> bool {
    forall|k: int| 0 <= k < r.len() ==> #[trigger] r[k].0 <= r[k].1 && r[k].1 <= n
}

fn tick_ranges(s: &[char]) -> (r: Vec<(usize, usize)>)
    ensures
        r@ == tick_pieces(s@, 0),
        ranges_within(r@, s@.len() as int),
{
    let n = s.len();
    let mut out: Vec<(usize, usize)> = Vec::new();
    let mut start: usize = 0;
    loop
        invariant
            n == s@.len(),
            start <= n,
            out@ + tick_pieces(s@, start as int) == tick_pieces(s@, 0),
            ranges_within(out@, n as int),
        decreases n - start,
    {
        proof {
            lemma_find_from(s@, '`', start as int, n as int);
        }
        match find_char(s, '`', start, n) {
            None => {
                let ghost before = out@;
                out.push((start, n));
                assert(before + tick_pieces(s@, start as int) =~= out@);
                assert forall|j: int| 0 <= j < out@.len() implies #[trigger] out@[j].0 <= out@[j].1
                    && out@[j].1 <= n by {
                    if j < before.len() {
                        assert(out@[j] == before[j]);
                        assert(before[j].0 <= before[j].1 && before[j].1 <= n);
                    }
                }
                assert(ranges_within(out@, n as int));
                return out;
            },
            Some(k) => {
                let ghost before = out@;
                assert(start <= k && k < n);
                out.push((start, k));
                assert(before + tick_pieces(s@, start as int) =~= out@ + tick_pieces(s@, k + 1));
                assert forall|j: int| 0 <= j < out@.len() implies #[trigger] out@[j].0 <= out@[j].1
                    && out@[j].1 <= n by {
                    if j < before.len() {
                        assert(out@[j] == before[j]);
                        assert(before[j].0 <= before[j].1 && before[j].1 <= n);
                    } else {
                        assert(out@[j] == (start, k));
                    }
                }
                assert(ranges_within(out@, n as int));
                start = k + 1;
            },
        }
    }
}

/// The views of a list of string slices
pub open spec fn views(v: Seq<&str>) -> Seq<Seq<char>> {
    v.map_values(|x: &str| x@)
}

/// Returns the type names a comment puts in backticks
///
/// A rustdoc link such as ``[`Foo`]`` yields `Foo`, and a qualified or generic
/// form yields its base name.
pub fn backticked_names(text: &str) -> (r: Vec<&str>)
    ensures
        views(r@) == backticked(text@),
{
    let s = chars_of(text);
    let pieces = tick_ranges(s.as_slice());
    let mut out: Vec<&str> = Vec::new();
    let mut i: usize = 1;
    while i < pieces.len()
        invariant
            s@ == text@,
            pieces@ == tick_pieces(s@, 0),
            forall|k: int| 0 <= k < pieces@.len() ==> #[trigger] pieces@[k].0 <= pieces@[k].1 && pieces@[k].1 <= s@.len(),
            i >= 1,
            views(out@) + names_in(s@, pieces@, i as int) == backticked(s@),
        decreases pieces@.len() - i,
    {
        let (a, b) = pieces[i];
        let ghost before = views(out@);
        match base_name_range(s.as_slice(), a, b) {
            Some((x, y)) => {
                out.push(slice_of(text, s.as_slice(), x, y));
                assert(views(out@) =~= before + seq![s@.subrange(x as int, y as int)]);
            },
            None => {},
        }
        assert(views(out@) + names_in(s@, pieces@, i + 2) =~= before + names_in(s@, pieces@, i as int));
        if pieces.len() - i < 2 {
            assert(names_in(s@, pieces@, i + 2) =~= Seq::<Seq<char>>::empty());
            assert(views(out@) =~= backticked(s@));
            return out;
        }
        i += 2;
    }
    assert(names_in(s@, pieces@, i as int) =~= Seq::<Seq<char>>::empty());
    assert(views(out@) =~= backticked(s@));
    out
}

/// A trait name in backticks
pub open spec fn quoted(t: AutoTrait) -> Seq<char> {
    seq!['`'] + trait_name(t) + seq!['`']
}

/// The names of `ts`, in backticks, separated by commas
pub open spec fn comma_list(ts: Seq<AutoTrait>) -> Seq<char>
    decreases ts.len(),
{
    if ts.len() == 0 {
        Seq::empty()
    } else if ts.len() == 1 {
        quoted(ts[0])
    } else {
        comma_list(ts.drop_last()) + seq![',', ' '] + quoted(ts.last())
    }
}

/// The list of trait names that the diagnostic message uses
///
/// Three traits become `` `Send`, `Sync`, or `Unpin` ``.
pub open spec fn joined_traits(ts: Seq<AutoTrait>) -> Seq<char> {
    if ts.len() == 0 {
        Seq::empty()
    } else if ts.len() == 1 {
        quoted(ts[0])
    } else if ts.len() == 2 {
        quoted(ts[0]) + seq![' ', 'o', 'r', ' '] + quoted(ts[1])
    } else {
        comma_list(ts.drop_last()) + seq![',', ' ', 'o', 'r', ' '] + quoted(ts.last())
    }
}

fn push_quoted(out: &mut Vec<char>, t: AutoTrait)
    ensures
        final(out)@ == old(out)@ + quoted(t),
{
    let name = chars_of(t.as_str());
    let ghost start = out@;
    out.push('`');
    let mut k: usize = 0;
    while k < name.len()
        invariant
            k <= name@.len(),
            name@ == trait_name(t),
            out@ == start + seq!['`'] + name@.subrange(0, k as int),
        decreases name@.len() - k,
    {
        out.push(name[k]);
        k += 1;
        assert(out@ =~= start + seq!['`'] + name@.subrange(0, k as int));
    }
    out.push('`');
    assert(out@ =~= start + quoted(t));
}

fn push_chars(out: &mut Vec<char>, extra: &[char])
    ensures
        final(out)@ == old(out)@ + extra@,
{
    let ghost start = out@;
    let mut k: usize = 0;
    while k < extra.len()
        invariant
            k <= extra@.len(),
            out@ == start + extra@.subrange(0, k as int),
        decreases extra@.len() - k,
    {
        out.push(extra[k]);
        k += 1;
        assert(out@ =~= start + extra@.subrange(0, k as int));
    }
    assert(extra@.subrange(0, extra@.len() as int) =~= extra@);
}

/// Joins trait names into the list the diagnostic message uses
///
/// Three traits become `` `Send`, `Sync`, or `Unpin` ``.
pub fn join_traits(traits: &[AutoTrait]) -> (r: String)
    ensures
        r@ == joined_traits(traits@),
{
    let n = traits.len();
    let mut out: Vec<char> = Vec::new();
    if n == 0 {
    } else if n == 1 {
        push_quoted(&mut out, traits[0]);
    } else if n == 2 {
        push_quoted(&mut out, traits[0]);
        push_chars(&mut out, &[' ', 'o', 'r', ' ']);
        push_quoted(&mut out, traits[1]);
    } else {
        let mut i: usize = 0;
        while i < n - 1
            invariant
                n == traits@.len(),
                n >= 3,
                i <= n - 1,
                out@ == comma_list(traits@.subrange(0, i as int)),
            decreases n - 1 - i,
        {
            let ghost before = out@;
            if i > 0 {
                push_chars(&mut out, &[',', ' ']);
            }
            push_quoted(&mut out, traits[i]);
            let ghost pre = traits@.subrange(0, i + 1);
            assert(pre.drop_last() =~= traits@.subrange(0, i as int));
            i += 1;
        }
        push_chars(&mut out, &[',', ' ', 'o', 'r', ' ']);
        push_quoted(&mut out, traits[n - 1]);
        assert(traits@.drop_last() =~= traits@.subrange(0, (n - 1) as int));
    }
    string_of(out.as_slice())
}

impl MissingTraitTests {
    /// Scans one file and reports every type in it that is missing a trait
    /// test
    ///
    /// The rule fires on the absence of a test, so no single node carries
    /// the answer: the scan starts from the file's root node and reads the
    /// whole file. Files under `tests` or `benches` hold fixtures and are
    /// skipped.
    pub fn check_source_file(&self, t: &SyntaxTree, root: usize, path: &str) -> (r: Vec<Diagnostic>)
        requires
            t.valid(),
            root < t.size(),
        ensures
            test_target(path@) ==> r@.len() == 0,
            all_under(diag_views(r@), "lint.missing-trait-tests"@),
            diag_views(r@) == file_findings(*t, root as int, path@),
    {
        if is_test_target(path) {
            let r: Vec<Diagnostic> = Vec::new();
            assert(diag_views(r@) =~= Seq::<(Seq<char>, Seq<char>, usize, usize)>::empty());
            return r;
        }
        let mut scan = FileScan::new();
        scan.collect_assertions(t, root, Scope::Shipped);
        scan.walk_items(t, root, Scope::Shipped);
        scan.resolve_calls();
        proof {
            let a = assertions(*t, root as int, Scope::Shipped);
            let w = walk(*t, root as int, Scope::Shipped);
            assert(Seq::<Entry>::empty() + a.0 =~= a.0);
            assert(Seq::<CallView>::empty() + a.1 =~= a.1);
            assert(Seq::<CandidateView>::empty() + w.0 =~= w.0);
            assert(Seq::<Entry>::empty() + w.1 =~= w.1);
        }
        scan.report()
    }
}

} // verus!
