//! Character-level text helpers shared by the rules
//!
//! The rules read Rust source text and report byte offsets into it. The
//! helpers here view text as its sequence of `char`s, and they measure a run
//! of characters by the length of its UTF-8 encoding, which is what a byte
//! offset into the file counts.
use vstd::prelude::*;
use vstd::string::*;
use vstd::utf8::*;

verus! {

broadcast use vstd::seq_lib::group_seq_properties;

/// Whether a character has the Unicode `White_Space` property
///
/// This is the set that `char::is_whitespace` tests for.
pub open spec fn is_ws(c: char) -> bool {
    let v = c as u32;
    ||| (9 <= v && v <= 13)
    ||| v == 32
    ||| v == 0x85
    ||| v == 0xA0
    ||| v == 0x1680
    ||| (0x2000 <= v && v <= 0x200A)
    ||| v == 0x2028
    ||| v == 0x2029
    ||| v == 0x202F
    ||| v == 0x205F
    ||| v == 0x3000
}

/// Whether a character is one of the five ASCII whitespace characters
///
/// This is the set that `u8::is_ascii_whitespace` tests for: space, tab,
/// line feed, form feed, and carriage return.
pub open spec fn is_ascii_ws(c: char) -> bool {
    c == ' ' || c == '\t' || c == '\n' || c == '\x0C' || c == '\r'
}

/// Whether a character is an ASCII digit
pub open spec fn is_digit(c: char) -> bool {
    '0' <= c && c <= '9'
}

/// Whether a character is an ASCII letter
pub open spec fn is_ascii_letter(c: char) -> bool {
    ('a' <= c && c <= 'z') || ('A' <= c && c <= 'Z')
}

/// Whether a character is an ASCII control character
pub open spec fn is_ascii_control(c: char) -> bool {
    (c as u32) < 32 || (c as u32) == 127
}

/// Returns whether `c` has the Unicode `White_Space` property
pub fn is_whitespace(c: char) -> (r: bool)
    ensures
        r == is_ws(c),
{
    let v = c as u32;
    (9 <= v && v <= 13) || v == 32 || v == 0x85 || v == 0xA0 || v == 0x1680 || (0x2000 <= v && v
        <= 0x200A) || v == 0x2028 || v == 0x2029 || v == 0x202F || v == 0x205F || v == 0x3000
}

/// Returns whether `c` is ASCII whitespace
pub fn is_ascii_whitespace(c: char) -> (r: bool)
    ensures
        r == is_ascii_ws(c),
{
    c == ' ' || c == '\t' || c == '\n' || c == '\x0C' || c == '\r'
}

/// Returns whether `c` is an ASCII digit
pub fn is_ascii_digit(c: char) -> (r: bool)
    ensures
        r == is_digit(c),
{
    '0' <= c && c <= '9'
}

/// Returns whether `c` is an ASCII letter
pub fn is_ascii_alphabetic(c: char) -> (r: bool)
    ensures
        r == is_ascii_letter(c),
{
    ('a' <= c && c <= 'z') || ('A' <= c && c <= 'Z')
}

/// The answer of `char::is_alphanumeric` for a character
///
/// The standard library reads it from the Unicode tables, which this crate
/// does not restate.
pub uninterp spec fn alphanumeric(c: char) -> bool;

/// The answer of `char::is_lowercase` for a character
pub uninterp spec fn lowercase(c: char) -> bool;

/// The answer of `char::is_alphabetic` for a character
pub uninterp spec fn alphabetic(c: char) -> bool;

/// Calls `char::is_alphanumeric`, which tests the Unicode `Alphabetic` and
/// `Numeric` properties; the result is named, not restated, but for an
/// ASCII character it is stated: true exactly for a letter or a digit
#[verifier::external_body]
pub(crate) fn char_is_alphanumeric(c: char) -> (r: bool)
    ensures
        r == alphanumeric(c),
        (c as u32) < 128 ==> r == (('a' <= c <= 'z') || ('A' <= c <= 'Z') || ('0' <= c <= '9')),
{
    c.is_alphanumeric()
}

/// Calls `char::is_lowercase`, which tests the Unicode `Lowercase` property;
/// the result is named, not restated, but for an ASCII character it is
/// stated: true exactly for `a` to `z`
#[verifier::external_body]
pub(crate) fn char_is_lowercase(c: char) -> (r: bool)
    ensures
        r == lowercase(c),
        (c as u32) < 128 ==> r == ('a' <= c <= 'z'),
{
    c.is_lowercase()
}

/// Calls `char::is_alphabetic`, which tests the Unicode `Alphabetic`
/// property; the result is named, not restated, but for an ASCII character
/// it is stated: true exactly for a letter
#[verifier::external_body]
pub(crate) fn char_is_alphabetic(c: char) -> (r: bool)
    ensures
        r == alphabetic(c),
        (c as u32) < 128 ==> r == (('a' <= c <= 'z') || ('A' <= c <= 'Z')),
{
    c.is_alphabetic()
}

/// Returns the characters of `s` in order
pub fn chars_of(s: &str) -> (r: Vec<char>)
    ensures
        r@ == s@,
{
    let mut out: Vec<char> = Vec::new();
    for c in it: s.chars()
        invariant
            out@ == it.seq().take(it.index() as int),
            it.seq() == s@,
    {
        out.push(c);
    }
    out
}

/// Returns whether two character sequences hold the same text
pub fn same_chars(a: &[char], b: &[char]) -> (r: bool)
    ensures
        r == (a@ == b@),
{
    if a.len() != b.len() {
        return false;
    }
    let mut i: usize = 0;
    while i < a.len()
        invariant
            a@.len() == b@.len(),
            i <= a@.len(),
            forall|j: int| 0 <= j < i ==> a@[j] == b@[j],
        decreases a@.len() - i,
    {
        if a[i] != b[i] {
            return false;
        }
        i += 1;
    }
    assert(a@ =~= b@);
    true
}

/// Returns whether the text `s` reads exactly `literal`
pub fn text_is(s: &str, literal: &str) -> (r: bool)
    ensures
        r == (s@ == literal@),
{
    let a = chars_of(s);
    let b = chars_of(literal);
    same_chars(a.as_slice(), b.as_slice())
}

/// Whether `s` holds `p` starting at position `i`
pub open spec fn has_at(s: Seq<char>, i: int, p: Seq<char>) -> bool {
    0 <= i && i + p.len() <= s.len() && s.subrange(i, i + p.len()) == p
}

/// Returns whether `s` holds `p` starting at position `i`
pub fn matches_at(s: &[char], i: usize, p: &[char]) -> (r: bool)
    ensures
        r == has_at(s@, i as int, p@),
{
    if i > s.len() || p.len() > s.len() - i {
        return false;
    }
    let mut k: usize = 0;
    while k < p.len()
        invariant
            i + p@.len() <= s@.len(),
            s@.len() <= usize::MAX,
            k <= p@.len(),
            forall|j: int| 0 <= j < k ==> s@[i + j] == p@[j],
        decreases p@.len() - k,
    {
        if s[i + k] != p[k] {
            assert(s@.subrange(i as int, i + p@.len())[k as int] != p@[k as int]);
            return false;
        }
        k += 1;
    }
    assert(s@.subrange(i as int, i + p@.len()) =~= p@);
    true
}

/// The position of the first character at or after `i` that is not
/// whitespace, or the end of `s`
pub open spec fn skip_ws(s: Seq<char>, i: int) -> int
    decreases s.len() - i,
{
    if 0 <= i < s.len() && is_ws(s[i]) {
        skip_ws(s, i + 1)
    } else {
        i
    }
}

/// The end of `s[lo..j]` once trailing whitespace is dropped
pub open spec fn trim_back(s: Seq<char>, lo: int, j: int) -> int
    decreases j - lo,
{
    if lo < j && j <= s.len() && is_ws(s[j - 1]) {
        trim_back(s, lo, j - 1)
    } else {
        j
    }
}

pub proof fn lemma_skip_ws_bounds(s: Seq<char>, i: int)
    requires
        0 <= i <= s.len(),
    ensures
        i <= skip_ws(s, i) <= s.len(),
        forall|k: int| i <= k < skip_ws(s, i) ==> is_ws(s[k]),
        skip_ws(s, i) < s.len() ==> !is_ws(s[skip_ws(s, i)]),
    decreases s.len() - i,
{
    if i < s.len() && is_ws(s[i]) {
        lemma_skip_ws_bounds(s, i + 1);
    }
}

pub proof fn lemma_trim_back_bounds(s: Seq<char>, lo: int, j: int)
    requires
        0 <= lo <= j <= s.len(),
    ensures
        lo <= trim_back(s, lo, j) <= j,
        forall|k: int| trim_back(s, lo, j) <= k < j ==> is_ws(s[k]),
        lo < trim_back(s, lo, j) ==> !is_ws(s[trim_back(s, lo, j) - 1]),
    decreases j - lo,
{
    if lo < j && is_ws(s[j - 1]) {
        lemma_trim_back_bounds(s, lo, j - 1);
    }
}

/// Returns the position of the first non-whitespace character at or after `i`
pub fn skip_whitespace(s: &[char], i: usize) -> (r: usize)
    requires
        i <= s@.len(),
    ensures
        r == skip_ws(s@, i as int),
        i <= r <= s@.len(),
{
    let mut k = i;
    while k < s.len() && is_whitespace(s[k])
        invariant
            i <= k <= s@.len(),
            skip_ws(s@, k as int) == skip_ws(s@, i as int),
        decreases s@.len() - k,
    {
        k += 1;
    }
    k
}

/// Returns the end of `s[lo..j]` once trailing whitespace is dropped
pub fn trim_back_from(s: &[char], lo: usize, j: usize) -> (r: usize)
    requires
        lo <= j <= s@.len(),
    ensures
        r == trim_back(s@, lo as int, j as int),
        lo <= r <= j,
{
    let mut k = j;
    while k > lo && is_whitespace(s[k - 1])
        invariant
            lo <= k <= j <= s@.len(),
            trim_back(s@, lo as int, k as int) == trim_back(s@, lo as int, j as int),
        decreases k - lo,
    {
        k -= 1;
    }
    k
}

/// Whether every character of `s` is whitespace
pub open spec fn all_ws(s: Seq<char>) -> bool {
    forall|k: int| 0 <= k < s.len() ==> is_ws(s[k])
}

/// Returns whether every character of `s[from..to]` is whitespace
pub fn all_whitespace(s: &[char], from: usize, to: usize) -> (r: bool)
    requires
        from <= to <= s@.len(),
    ensures
        r == all_ws(s@.subrange(from as int, to as int)),
{
    let mut k = from;
    while k < to
        invariant
            from <= k <= to <= s@.len(),
            forall|m: int| from <= m < k ==> is_ws(s@[m]),
        decreases to - k,
    {
        if !is_whitespace(s[k]) {
            assert(!is_ws(s@.subrange(from as int, to as int)[k - from]));
            return false;
        }
        k += 1;
    }
    assert(all_ws(s@.subrange(from as int, to as int)));
    true
}

/// The number of bytes the UTF-8 encoding of `c` takes
pub open spec fn width(c: char) -> nat {
    encode_scalar(c as u32).len()
}

/// The number of bytes the UTF-8 encoding of `s` takes
pub open spec fn utf8_size(s: Seq<char>) -> nat {
    encode_utf8(s).len()
}

/// Returns how many bytes the UTF-8 encoding of `c` takes
pub fn char_width(c: char) -> (r: usize)
    ensures
        r == width(c),
        1 <= r <= 4,
{
    proof {
        char_is_scalar(c);
    }
    let v = c as u32;
    if v <= 0x7F {
        1
    } else if v <= 0x7FF {
        2
    } else if v <= 0xFFFF {
        3
    } else {
        4
    }
}

pub proof fn lemma_encode_utf8_concat(a: Seq<char>, b: Seq<char>)
    ensures
        encode_utf8(a + b) == encode_utf8(a) + encode_utf8(b),
    decreases a.len(),
{
    if a.len() == 0 {
        assert(a + b =~= b);
        assert(encode_utf8(a) =~= Seq::<u8>::empty());
        assert(encode_utf8(a) + encode_utf8(b) =~= encode_utf8(b));
    } else {
        assert((a + b).drop_first() =~= a.drop_first() + b);
        lemma_encode_utf8_concat(a.drop_first(), b);
        assert(encode_utf8(a + b) =~= encode_scalar(a[0] as u32) + encode_utf8(a.drop_first() + b));
    }
}

pub proof fn lemma_utf8_size_push(s: Seq<char>, c: char)
    ensures
        utf8_size(s.push(c)) == utf8_size(s) + width(c),
{
    lemma_encode_utf8_concat(s, seq![c]);
    assert(s.push(c) =~= s + seq![c]);
    assert(seq![c].drop_first() =~= Seq::<char>::empty());
    assert(encode_utf8(seq![c]) =~= encode_scalar(c as u32) + encode_utf8(
        Seq::<char>::empty(),
    ));
}

pub proof fn lemma_utf8_size_split(s: Seq<char>, i: int, j: int, k: int)
    requires
        0 <= i <= j <= k <= s.len(),
    ensures
        utf8_size(s.subrange(i, k)) == utf8_size(s.subrange(i, j)) + utf8_size(
            s.subrange(j, k),
        ),
{
    assert(s.subrange(i, k) =~= s.subrange(i, j) + s.subrange(j, k));
    lemma_encode_utf8_concat(s.subrange(i, j), s.subrange(j, k));
}

pub proof fn lemma_utf8_size_bounds(s: Seq<char>)
    ensures
        s.len() <= utf8_size(s) <= 4 * s.len(),
    decreases s.len(),
{
    if s.len() > 0 {
        lemma_utf8_size_bounds(s.drop_first());
        char_is_scalar(s[0]);
    }
}

pub proof fn lemma_utf8_size_mono(s: Seq<char>, i: int, j: int, k: int)
    requires
        0 <= i <= j <= k <= s.len(),
    ensures
        utf8_size(s.subrange(i, j)) <= utf8_size(s.subrange(i, k)),
{
    lemma_utf8_size_split(s, i, j, k);
}

/// Returns the number of bytes that the UTF-8 encoding of `s[from..to]` takes
pub fn byte_len(s: &[char], from: usize, to: usize) -> (r: usize)
    requires
        from <= to <= s@.len(),
        utf8_size(s@.subrange(from as int, to as int)) <= usize::MAX,
    ensures
        r == utf8_size(s@.subrange(from as int, to as int)),
{
    let mut total: usize = 0;
    let mut k = from;
    while k < to
        invariant
            from <= k <= to <= s@.len(),
            utf8_size(s@.subrange(from as int, to as int)) <= usize::MAX,
            total == utf8_size(s@.subrange(from as int, k as int)),
        decreases to - k,
    {
        proof {
            lemma_utf8_size_push(s@.subrange(from as int, k as int), s@[k as int]);
            assert(s@.subrange(from as int, k as int).push(s@[k as int]) =~= s@.subrange(
                from as int,
                k + 1,
            ));
            lemma_utf8_size_mono(s@, from as int, k + 1, to as int);
        }
        total = total + char_width(s[k]);
        k += 1;
    }
    total
}

/// The number of bytes that the UTF-8 encoding of `s[from..to]` takes, when
/// that number fits in a `usize`
pub open spec fn checked_size(s: Seq<char>, from: int, to: int) -> Option<usize> {
    if utf8_size(s.subrange(from, to)) <= usize::MAX {
        Some(utf8_size(s.subrange(from, to)) as usize)
    } else {
        None
    }
}

/// Returns the number of bytes that the UTF-8 encoding of `s[from..to]`
/// takes, or [`None`] when it does not fit in a `usize`
pub fn byte_len_checked(s: &[char], from: usize, to: usize) -> (r: Option<usize>)
    requires
        from <= to <= s@.len(),
    ensures
        r == checked_size(s@, from as int, to as int),
{
    let mut total: usize = 0;
    let mut k = from;
    while k < to
        invariant
            from <= k <= to <= s@.len(),
            total == utf8_size(s@.subrange(from as int, k as int)),
        decreases to - k,
    {
        proof {
            lemma_utf8_size_push(s@.subrange(from as int, k as int), s@[k as int]);
            assert(s@.subrange(from as int, k as int).push(s@[k as int]) =~= s@.subrange(
                from as int,
                k + 1,
            ));
        }
        let w = char_width(s[k]);
        match total.checked_add(w) {
            Some(t) => {
                total = t;
            },
            None => {
                proof {
                    lemma_utf8_size_mono(s@, from as int, k + 1, to as int);
                }
                return None;
            },
        }
        k += 1;
    }
    Some(total)
}

/// Returns the characters of `s` together with the fact that their encoding
/// fits in memory
pub fn text_chars(s: &str) -> (r: Vec<char>)
    ensures
        r@ == s@,
        utf8_size(s@) <= usize::MAX,
{
    let bytes = s.as_bytes();
    let n = bytes.len();
    assert(utf8_size(s@) == n);
    chars_of(s)
}

/// Calls `String::push`, which appends one character to the string
#[verifier::external_body]
pub(crate) fn push_char(s: &mut String, c: char)
    ensures
        final(s)@ == old(s)@.push(c),
{
    s.push(c);
}

/// Returns whether `s[a..b]` and `t[u..v]` hold the same characters
pub fn ranges_equal(s: &[char], a: usize, b: usize, t: &[char], u: usize, v: usize) -> (r: bool)
    requires
        a <= b <= s@.len(),
        u <= v <= t@.len(),
    ensures
        r == (s@.subrange(a as int, b as int) == t@.subrange(u as int, v as int)),
{
    if b - a != v - u {
        assert(s@.subrange(a as int, b as int).len() != t@.subrange(u as int, v as int).len());
        return false;
    }
    let mut k: usize = 0;
    while k < b - a
        invariant
            a <= b <= s@.len(),
            u <= v <= t@.len(),
            b - a == v - u,
            k <= b - a,
            forall|j: int| a <= j < a + k ==> #[trigger] s@[j] == t@[u + (j - a)],
        decreases b - a - k,
    {
        if s[a + k] != t[u + k] {
            assert(s@.subrange(a as int, b as int)[k as int] != t@.subrange(u as int, v as int)[k as int]);
            return false;
        }
        k += 1;
    }
    assert(s@.subrange(a as int, b as int) =~= t@.subrange(u as int, v as int));
    true
}

/// Appends the characters of `s` to `out`
pub fn append(out: &mut String, s: &str)
    ensures
        final(out)@ == old(out)@ + s@,
{
    let chars = chars_of(s);
    let ghost start = out@;
    let mut k: usize = 0;
    while k < chars.len()
        invariant
            k <= chars@.len(),
            chars@ == s@,
            out@ == start + chars@.subrange(0, k as int),
        decreases chars@.len() - k,
    {
        push_char(out, chars[k]);
        k += 1;
        assert(out@ =~= start + chars@.subrange(0, k as int));
    }
    assert(chars@.subrange(0, chars@.len() as int) =~= chars@);
}

/// Returns a string that holds the characters of `chars[from..to]`
pub fn string_of_range(chars: &[char], from: usize, to: usize) -> (r: String)
    requires
        from <= to <= chars@.len(),
    ensures
        r@ == chars@.subrange(from as int, to as int),
{
    let mut out = String::new();
    let mut k: usize = from;
    while k < to
        invariant
            from <= k <= to <= chars@.len(),
            out@ == chars@.subrange(from as int, k as int),
        decreases to - k,
    {
        push_char(&mut out, chars[k]);
        k += 1;
        assert(out@ =~= chars@.subrange(from as int, k as int));
    }
    out
}

/// Returns a string that holds the characters of `chars`
pub fn string_of(chars: &[char]) -> (r: String)
    ensures
        r@ == chars@,
{
    let mut out = String::new();
    let mut k: usize = 0;
    while k < chars.len()
        invariant
            k <= chars@.len(),
            out@ == chars@.subrange(0, k as int),
        decreases chars@.len() - k,
    {
        push_char(&mut out, chars[k]);
        k += 1;
        assert(out@ =~= chars@.subrange(0, k as int));
    }
    assert(chars@.subrange(0, chars@.len() as int) =~= chars@);
    out
}

/// `t` without its leading whitespace, as `str::trim_start` leaves it
pub open spec fn trim_start(t: Seq<char>) -> Seq<char> {
    t.subrange(skip_ws(t, 0), t.len() as int)
}

/// `t` without its trailing whitespace, as `str::trim_end` leaves it
pub open spec fn trim_end(t: Seq<char>) -> Seq<char> {
    t.subrange(0, trim_back(t, 0, t.len() as int))
}

/// `t` without whitespace at either end, as `str::trim` leaves it
pub open spec fn trim(t: Seq<char>) -> Seq<char> {
    trim_end(trim_start(t))
}

/// What follows `p` in `t`, when `t` starts with `p`
pub open spec fn strip_prefix(t: Seq<char>, p: Seq<char>) -> Option<Seq<char>> {
    if p.len() <= t.len() && t.subrange(0, p.len() as int) == p {
        Some(t.subrange(p.len() as int, t.len() as int))
    } else {
        None
    }
}

/// What precedes `p` in `t`, when `t` ends with `p`
pub open spec fn strip_suffix(t: Seq<char>, p: Seq<char>) -> Option<Seq<char>> {
    if p.len() <= t.len() && t.subrange(t.len() - p.len(), t.len() as int) == p {
        Some(t.subrange(0, t.len() - p.len()))
    } else {
        None
    }
}

/// Stripping a one-character suffix removes the last character exactly when
/// it is that character
pub proof fn lemma_strip_last(t: Seq<char>, c: char)
    ensures
        strip_suffix(t, seq![c]) == (if t.len() > 0 && t[t.len() - 1] == c {
            Some(t.subrange(0, t.len() - 1))
        } else {
            None
        }),
{
    if t.len() > 0 {
        let last = t.subrange(t.len() - 1, t.len() as int);
        assert(last =~= seq![t[t.len() - 1]]);
        if t[t.len() - 1] != c {
            assert(last[0] != seq![c][0]);
        }
    }
}

/// Whether `t` starts with `p`
pub open spec fn starts_with(t: Seq<char>, p: Seq<char>) -> bool {
    strip_prefix(t, p) is Some
}

proof fn lemma_skip_ws_shift(s: Seq<char>, a: int, b: int, k: int)
    requires
        0 <= a <= k <= b <= s.len(),
        forall|j: int| a <= j < k ==> is_ws(s[j]),
    ensures
        skip_ws(s.subrange(a, b), 0) == skip_ws(s.subrange(a, b), k - a),
    decreases k - a,
{
    if k > a {
        lemma_skip_ws_shift(s, a, b, k - 1);
    }
}

/// Returns where `s[a..b]` starts once its leading whitespace is dropped
pub fn trim_start_at(s: &[char], a: usize, b: usize) -> (r: usize)
    requires
        a <= b <= s@.len(),
    ensures
        a <= r <= b,
        s@.subrange(r as int, b as int) == trim_start(s@.subrange(a as int, b as int)),
{
    let mut k = a;
    while k < b && is_whitespace(s[k])
        invariant
            a <= k <= b <= s@.len(),
            forall|j: int| a <= j < k ==> is_ws(s@[j]),
        decreases b - k,
    {
        k += 1;
    }
    proof {
        let t = s@.subrange(a as int, b as int);
        lemma_skip_ws_shift(s@, a as int, b as int, k as int);
        assert(skip_ws(t, k - a) == k - a);
        assert(s@.subrange(k as int, b as int) =~= t.subrange(k - a, t.len() as int));
    }
    k
}

proof fn lemma_trim_back_shift(s: Seq<char>, a: int, b: int, k: int)
    requires
        0 <= a <= k <= b <= s.len(),
        forall|j: int| k <= j < b ==> is_ws(s[j]),
    ensures
        trim_back(s.subrange(a, b), 0, b - a) == trim_back(s.subrange(a, b), 0, k - a),
    decreases b - k,
{
    if k < b {
        lemma_trim_back_shift(s, a, b, k + 1);
    }
}

/// Returns where `s[a..b]` ends once its trailing whitespace is dropped
pub fn trim_end_at(s: &[char], a: usize, b: usize) -> (r: usize)
    requires
        a <= b <= s@.len(),
    ensures
        a <= r <= b,
        s@.subrange(a as int, r as int) == trim_end(s@.subrange(a as int, b as int)),
{
    let mut k = b;
    while k > a && is_whitespace(s[k - 1])
        invariant
            a <= k <= b <= s@.len(),
            forall|j: int| k <= j < b ==> is_ws(s@[j]),
        decreases k - a,
    {
        k -= 1;
    }
    proof {
        let t = s@.subrange(a as int, b as int);
        lemma_trim_back_shift(s@, a as int, b as int, k as int);
        assert(trim_back(t, 0, k - a) == k - a);
        assert(s@.subrange(a as int, k as int) =~= t.subrange(0, k - a));
    }
    k
}

/// Returns the range of `s[a..b]` once whitespace at either end is dropped
pub fn trim_at(s: &[char], a: usize, b: usize) -> (r: (usize, usize))
    requires
        a <= b <= s@.len(),
    ensures
        a <= r.0 <= r.1 <= b,
        s@.subrange(r.0 as int, r.1 as int) == trim(s@.subrange(a as int, b as int)),
{
    let a2 = trim_start_at(s, a, b);
    let b2 = trim_end_at(s, a2, b);
    (a2, b2)
}

/// Returns where `s[a..b]` goes on after the prefix `p`, when it starts
/// with `p`
pub fn strip_prefix_at(s: &[char], a: usize, b: usize, p: &[char]) -> (r: Option<usize>)
    requires
        a <= b <= s@.len(),
    ensures
        match r {
            Some(k) => a <= k <= b && strip_prefix(s@.subrange(a as int, b as int), p@) == Some(
                s@.subrange(k as int, b as int),
            ),
            None => strip_prefix(s@.subrange(a as int, b as int), p@) is None,
        },
{
    let ghost t = s@.subrange(a as int, b as int);
    if p.len() > b - a {
        return None;
    }
    if matches_at(s, a, p) {
        assert(t.subrange(0, p@.len() as int) =~= s@.subrange(a as int, a + p@.len()));
        assert(t.subrange(p@.len() as int, t.len() as int) =~= s@.subrange(a + p@.len(), b as int));
        Some(a + p.len())
    } else {
        assert(t.subrange(0, p@.len() as int) =~= s@.subrange(a as int, a + p@.len()));
        None
    }
}

/// Returns where `s[a..b]` ends before the suffix `p`, when it ends with `p`
pub fn strip_suffix_at(s: &[char], a: usize, b: usize, p: &[char]) -> (r: Option<usize>)
    requires
        a <= b <= s@.len(),
    ensures
        match r {
            Some(k) => a <= k <= b && strip_suffix(s@.subrange(a as int, b as int), p@) == Some(
                s@.subrange(a as int, k as int),
            ),
            None => strip_suffix(s@.subrange(a as int, b as int), p@) is None,
        },
{
    let ghost t = s@.subrange(a as int, b as int);
    if p.len() > b - a {
        return None;
    }
    let k = b - p.len();
    if matches_at(s, k, p) {
        assert(t.subrange(t.len() - p@.len(), t.len() as int) =~= s@.subrange(k as int, b as int));
        assert(t.subrange(0, t.len() - p@.len()) =~= s@.subrange(a as int, k as int));
        Some(k)
    } else {
        assert(t.subrange(t.len() - p@.len(), t.len() as int) =~= s@.subrange(k as int, b as int));
        None
    }
}

/// Returns the text of `s[from..to]` as a slice of the string `whole`, whose
/// characters `s` holds
pub fn slice_of<'a>(whole: &'a str, s: &[char], from: usize, to: usize) -> (r: &'a str)
    requires
        s@ == whole@,
        from <= to <= s@.len(),
    ensures
        r@ == whole@.subrange(from as int, to as int),
{
    whole.substring_char(from, to)
}

/// Returns whether `s[a..b]` reads exactly `literal`
pub fn range_is(s: &[char], a: usize, b: usize, literal: &str) -> (r: bool)
    requires
        a <= b <= s@.len(),
    ensures
        r == (s@.subrange(a as int, b as int) == literal@),
{
    let p = chars_of(literal);
    if b - a != p.len() {
        return false;
    }
    let m = matches_at(s, a, p.as_slice());
    assert(m ==> s@.subrange(a as int, b as int) =~= p@);
    m
}

/// The first position at or after `i` and before `b` that holds `c`, or `-1`
pub open spec fn find_from(s: Seq<char>, c: char, i: int, b: int) -> int
    decreases b - i,
{
    if i >= b {
        -1
    } else if s[i] == c {
        i
    } else {
        find_from(s, c, i + 1, b)
    }
}

pub proof fn lemma_find_from(s: Seq<char>, c: char, i: int, b: int)
    requires
        0 <= i <= b <= s.len(),
    ensures
        find_from(s, c, i, b) == -1 || (i <= find_from(s, c, i, b) < b && s[find_from(s, c, i, b)]
            == c),
        forall|k: int|
            i <= k < (if find_from(s, c, i, b) == -1 {
                b
            } else {
                find_from(s, c, i, b)
            }) ==> s[k] != c,
    decreases b - i,
{
    if i < b && s[i] != c {
        lemma_find_from(s, c, i + 1, b);
    }
}

/// Returns the first position in `s[i..b]` that holds `c`
pub fn find_char(s: &[char], c: char, i: usize, b: usize) -> (r: Option<usize>)
    requires
        i <= b <= s@.len(),
    ensures
        match r {
            Some(k) => find_from(s@, c, i as int, b as int) == k,
            None => find_from(s@, c, i as int, b as int) == -1,
        },
{
    let mut k = i;
    while k < b
        invariant
            i <= k <= b <= s@.len(),
            find_from(s@, c, k as int, b as int) == find_from(s@, c, i as int, b as int),
        decreases b - k,
    {
        if s[k] == c {
            return Some(k);
        }
        k += 1;
    }
    None
}

/// The last position `k` with `a <= k` and `k + 2 <= j` where `::` starts,
/// or `-1`
pub open spec fn last_path_sep(s: Seq<char>, a: int, j: int) -> int
    decreases j - a,
{
    if j - a < 2 {
        -1
    } else if s[j - 2] == ':' && s[j - 1] == ':' {
        j - 2
    } else {
        last_path_sep(s, a, j - 1)
    }
}

/// Returns the last position in `s[a..b]` where `::` starts
pub fn rfind_path_sep(s: &[char], a: usize, b: usize) -> (r: Option<usize>)
    requires
        a <= b <= s@.len(),
    ensures
        match r {
            Some(k) => last_path_sep(s@, a as int, b as int) == k,
            None => last_path_sep(s@, a as int, b as int) == -1,
        },
{
    let mut j = b;
    while j >= a && j - a >= 2
        invariant
            a <= b <= s@.len(),
            a <= j <= b,
            last_path_sep(s@, a as int, j as int) == last_path_sep(s@, a as int, b as int),
        decreases j,
    {
        if s[j - 2] == ':' && s[j - 1] == ':' {
            return Some(j - 2);
        }
        j -= 1;
    }
    None
}

pub proof fn lemma_find_from_shift(s: Seq<char>, c: char, a: int, i: int, b: int)
    requires
        0 <= a <= i <= b <= s.len(),
    ensures
        find_from(s.subrange(a, b), c, i - a, b - a) == (if find_from(s, c, i, b) < 0 {
            -1
        } else {
            find_from(s, c, i, b) - a
        }),
    decreases b - i,
{
    if i < b && s[i] != c {
        lemma_find_from_shift(s, c, a, i + 1, b);
    }
}

pub proof fn lemma_last_path_sep_shift(s: Seq<char>, a: int, j: int, b: int)
    requires
        0 <= a <= j <= b <= s.len(),
    ensures
        last_path_sep(s.subrange(a, b), 0, j - a) == (if last_path_sep(s, a, j) < 0 {
            -1
        } else {
            last_path_sep(s, a, j) - a
        }),
    decreases j - a,
{
    if j - a >= 2 && !(s[j - 2] == ':' && s[j - 1] == ':') {
        lemma_last_path_sep_shift(s, a, j - 1, b);
    }
}

pub proof fn lemma_last_path_sep(s: Seq<char>, a: int, j: int)
    requires
        0 <= a <= j <= s.len(),
    ensures
        last_path_sep(s, a, j) == -1 || (a <= last_path_sep(s, a, j) && last_path_sep(s, a, j) + 2
            <= j),
    decreases j - a,
{
    if j - a >= 2 && !(s[j - 2] == ':' && s[j - 1] == ':') {
        lemma_last_path_sep(s, a, j - 1);
    }
}

/// `t` up to its first `c`, or all of `t`
pub open spec fn before_char(t: Seq<char>, c: char) -> Seq<char> {
    let k = find_from(t, c, 0, t.len() as int);
    if k < 0 {
        t
    } else {
        t.subrange(0, k)
    }
}

/// What follows the last `::` in `t`, or all of `t`
pub open spec fn after_last_path_sep(t: Seq<char>) -> Seq<char> {
    let k = last_path_sep(t, 0, t.len() as int);
    if k < 0 {
        t
    } else {
        t.subrange(k + 2, t.len() as int)
    }
}

/// Returns where `s[a..b]` ends before its first `c`
pub fn before_char_at(s: &[char], a: usize, b: usize, c: char) -> (r: usize)
    requires
        a <= b <= s@.len(),
    ensures
        a <= r <= b,
        s@.subrange(a as int, r as int) == before_char(s@.subrange(a as int, b as int), c),
{
    proof {
        lemma_find_from_shift(s@, c, a as int, a as int, b as int);
        lemma_find_from(s@, c, a as int, b as int);
    }
    match find_char(s, c, a, b) {
        Some(k) => {
            assert(s@.subrange(a as int, k as int) =~= s@.subrange(a as int, b as int).subrange(0, k - a));
            k
        },
        None => b,
    }
}

/// Returns where `s[a..b]` goes on after its last `::`
pub fn after_last_path_sep_at(s: &[char], a: usize, b: usize) -> (r: usize)
    requires
        a <= b <= s@.len(),
    ensures
        a <= r <= b,
        s@.subrange(r as int, b as int) == after_last_path_sep(s@.subrange(a as int, b as int)),
{
    proof {
        lemma_last_path_sep_shift(s@, a as int, b as int, b as int);
        lemma_last_path_sep(s@, a as int, b as int);
    }
    match rfind_path_sep(s, a, b) {
        Some(k) => {
            assert(s@.subrange(k + 2, b as int) =~= s@.subrange(a as int, b as int).subrange(
                k + 2 - a,
                b - a,
            ));
            k + 2
        },
        None => a,
    }
}


/// The character of the decimal digit `d`
pub open spec fn digit_char(d: nat) -> char {
    if d == 0 {
        '0'
    } else if d == 1 {
        '1'
    } else if d == 2 {
        '2'
    } else if d == 3 {
        '3'
    } else if d == 4 {
        '4'
    } else if d == 5 {
        '5'
    } else if d == 6 {
        '6'
    } else if d == 7 {
        '7'
    } else if d == 8 {
        '8'
    } else {
        '9'
    }
}

/// The decimal numeral of `n`, without leading zeros
pub open spec fn decimal(n: nat) -> Seq<char>
    decreases n,
{
    if n < 10 {
        seq![digit_char(n)]
    } else {
        decimal(n / 10).push(digit_char(n % 10))
    }
}

fn digit(d: usize) -> (r: char)
    requires
        d < 10,
    ensures
        r == digit_char(d as nat),
{
    if d == 0 {
        '0'
    } else if d == 1 {
        '1'
    } else if d == 2 {
        '2'
    } else if d == 3 {
        '3'
    } else if d == 4 {
        '4'
    } else if d == 5 {
        '5'
    } else if d == 6 {
        '6'
    } else if d == 7 {
        '7'
    } else if d == 8 {
        '8'
    } else {
        '9'
    }
}

/// Appends the decimal numeral of `n` to `out`
pub fn push_decimal(out: &mut String, n: usize)
    ensures
        final(out)@ == old(out)@ + decimal(n as nat),
    decreases n,
{
    if n >= 10 {
        push_decimal(out, n / 10);
    }
    push_char(out, digit(n % 10));
}

/// Returns a vector of the characters of `chars[from..to]`
pub fn chars_range(chars: &[char], from: usize, to: usize) -> (r: Vec<char>)
    requires
        from <= to <= chars@.len(),
    ensures
        r@ == chars@.subrange(from as int, to as int),
{
    let mut out: Vec<char> = Vec::new();
    let mut k: usize = from;
    while k < to
        invariant
            from <= k <= to <= chars@.len(),
            out@ == chars@.subrange(from as int, k as int),
        decreases to - k,
    {
        out.push(chars[k]);
        k += 1;
        assert(out@ =~= chars@.subrange(from as int, k as int));
    }
    out
}
} // verus!
