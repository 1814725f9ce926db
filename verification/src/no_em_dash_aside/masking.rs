//! Finding dash asides in the bytes of a paragraph
//!
//! A paragraph is read as one text, its lines joined by newlines. Code spans
//! and quotations are hidden behind a filler byte of the same length, so byte
//! offsets stay correct, and what is left is scanned for dashes.
use vstd::prelude::*;
use vstd::utf8::*;

use crate::no_em_dash_aside::markdown::{all_fit, line_fits, line_view, line_views, DocLine};
use crate::text::{append, lemma_encode_utf8_concat, push_char, utf8_size};

verus! {

broadcast use vstd::seq_lib::group_seq_properties;

/// The dash a writer used to interrupt a sentence
#[derive(Copy, Clone, Eq, PartialEq, Debug)]
pub enum AsideKind {
    EmDash,
    EnDash,
    SpacedHyphen,
}

/// The name of a dash, as the diagnostic gives it
pub open spec fn dash_name(k: AsideKind) -> Seq<char> {
    match k {
        AsideKind::EmDash => "em dash"@,
        AsideKind::EnDash => "en dash"@,
        AsideKind::SpacedHyphen => "spaced hyphen"@,
    }
}

impl AsideKind {
    /// Names the dash for the diagnostic message
    pub fn dash(self) -> (r: &'static str)
        ensures
            r@ == dash_name(self),
    {
        match self {
            AsideKind::EmDash => "em dash",
            AsideKind::EnDash => "en dash",
            AsideKind::SpacedHyphen => "spaced hyphen",
        }
    }
}

/// A dash aside, as a byte range in the file
#[derive(Copy, Clone, Eq, PartialEq, Debug)]
pub struct Aside {
    pub kind: AsideKind,
    pub offset: usize,
    pub length: usize,
}

/// What an aside says, as plain values
pub open spec fn aside_view(a: Aside) -> (AsideKind, usize, usize) {
    (a.kind, a.offset, a.length)
}

/// The views of a list of asides
pub open spec fn aside_views(s: Seq<Aside>) -> Seq<(AsideKind, usize, usize)> {
    s.map_values(|a: Aside| aside_view(a))
}

/// The byte that stands in for text the scan must not read as prose
///
/// It is neither a dash nor whitespace, so masked text still counts as
/// content on either side of a dash.
pub open spec fn filler() -> u8 {
    120u8
}

/// `n` filler bytes
pub open spec fn fillers(n: int) -> Seq<u8> {
    Seq::new(n as nat, |i: int| filler())
}

/// Whether a byte is ASCII whitespace, as `u8::is_ascii_whitespace` says
pub open spec fn ascii_ws(b: u8) -> bool {
    b == 32u8 || b == 9u8 || b == 10u8 || b == 12u8 || b == 13u8
}

/// Where the run of backticks that starts at `i` ends
pub open spec fn run_end_spec(b: Seq<u8>, i: int) -> int
    decreases b.len() - i,
{
    if 0 <= i < b.len() && b[i] == 96u8 {
        run_end_spec(b, i + 1)
    } else {
        i
    }
}

pub proof fn lemma_run_end(b: Seq<u8>, i: int)
    requires
        0 <= i <= b.len(),
    ensures
        i <= run_end_spec(b, i) <= b.len(),
        i < b.len() && b[i] == 96u8 ==> i < run_end_spec(b, i),
    decreases b.len() - i,
{
    if i < b.len() && b[i] == 96u8 {
        lemma_run_end(b, i + 1);
    }
}

/// The end of the first run of exactly `w` backticks at or after `i`
pub open spec fn closing_spec(b: Seq<u8>, i: int, w: int) -> Option<int>
    decreases b.len() - i,
{
    if i < 0 || i >= b.len() {
        None
    } else if b[i] != 96u8 {
        closing_spec(b, i + 1, w)
    } else {
        let e = run_end_spec(b, i);
        proof {
            lemma_run_end(b, i);
        }
        if e - i == w {
            Some(e)
        } else {
            closing_spec(b, e, w)
        }
    }
}

pub proof fn lemma_closing(b: Seq<u8>, i: int, w: int)
    requires
        0 <= i <= b.len(),
    ensures
        closing_spec(b, i, w) matches Some(c) ==> i < c <= b.len(),
    decreases b.len() - i,
{
    if i < b.len() {
        if b[i] != 96u8 {
            lemma_closing(b, i + 1, w);
        } else {
            lemma_run_end(b, i);
            let e = run_end_spec(b, i);
            if e - i != w {
                lemma_closing(b, e, w);
            }
        }
    }
}

/// The bytes of `b[i..]` with every code span hidden
///
/// A span that never closes is hidden to the end, which keeps an unbalanced
/// backtick from exposing the code after it.
pub open spec fn code_mask(b: Seq<u8>, i: int) -> Seq<u8>
    decreases b.len() - i,
{
    if i < 0 || i >= b.len() {
        Seq::empty()
    } else if b[i] != 96u8 {
        seq![b[i]] + code_mask(b, i + 1)
    } else {
        let e = run_end_spec(b, i);
        let end = match closing_spec(b, e, e - i) {
            Some(c) => c,
            None => b.len() as int,
        };
        proof {
            lemma_run_end(b, i);
            lemma_closing(b, e, e - i);
        }
        fillers(end - i) + code_mask(b, end)
    }
}

/// The first position at or after `k` that holds `x`
pub open spec fn find_byte(b: Seq<u8>, x: u8, k: int) -> Option<int>
    decreases b.len() - k,
{
    if k < 0 || k >= b.len() {
        None
    } else if b[k] == x {
        Some(k)
    } else {
        find_byte(b, x, k + 1)
    }
}

pub proof fn lemma_find_byte(b: Seq<u8>, x: u8, k: int)
    requires
        0 <= k,
    ensures
        find_byte(b, x, k) matches Some(j) ==> k <= j < b.len() && b[j] == x,
    decreases b.len() - k,
{
    if k < b.len() && b[k] != x {
        lemma_find_byte(b, x, k + 1);
    }
}

/// The bytes of `b[i..]` with every double-quoted run hidden; an unpaired
/// quote hides nothing
pub open spec fn quote_mask(b: Seq<u8>, i: int) -> Seq<u8>
    decreases b.len() - i,
{
    if i < 0 || i >= b.len() {
        Seq::empty()
    } else if b[i] != 34u8 {
        seq![b[i]] + quote_mask(b, i + 1)
    } else {
        proof {
            lemma_find_byte(b, 34u8, i + 1);
        }
        match find_byte(b, 34u8, i + 1) {
            None => b.subrange(i, b.len() as int),
            Some(j) => fillers(j + 1 - i) + quote_mask(b, j + 1),
        }
    }
}

/// The bytes of `text` with code spans and quotations hidden
pub open spec fn mask_spec(text: Seq<char>) -> Seq<u8> {
    quote_mask(code_mask(encode_utf8(text), 0), 0)
}

pub proof fn lemma_code_mask_len(b: Seq<u8>, i: int)
    requires
        0 <= i <= b.len(),
    ensures
        code_mask(b, i).len() == b.len() - i,
    decreases b.len() - i,
{
    if i < b.len() {
        if b[i] != 96u8 {
            lemma_code_mask_len(b, i + 1);
        } else {
            lemma_run_end(b, i);
            let e = run_end_spec(b, i);
            lemma_closing(b, e, e - i);
            let end = match closing_spec(b, e, e - i) {
                Some(c) => c,
                None => b.len() as int,
            };
            lemma_code_mask_len(b, end);
        }
    }
}

pub proof fn lemma_quote_mask_len(b: Seq<u8>, i: int)
    requires
        0 <= i <= b.len(),
    ensures
        quote_mask(b, i).len() == b.len() - i,
    decreases b.len() - i,
{
    if i < b.len() {
        if b[i] != 34u8 {
            lemma_quote_mask_len(b, i + 1);
        } else {
            lemma_find_byte(b, 34u8, i + 1);
            match find_byte(b, 34u8, i + 1) {
                None => {},
                Some(j) => {
                    lemma_quote_mask_len(b, j + 1);
                },
            }
        }
    }
}

/// Returns where the backtick run that started at `from` ends
pub fn run_end(bytes: &[u8], from: usize) -> (r: usize)
    requires
        from <= bytes@.len(),
    ensures
        r == run_end_spec(bytes@, from as int),
{
    let mut index = from;
    while index < bytes.len() && bytes[index] == 96u8
        invariant
            from <= index <= bytes@.len(),
            run_end_spec(bytes@, index as int) == run_end_spec(bytes@, from as int),
        decreases bytes@.len() - index,
    {
        index += 1;
    }
    index
}

/// Returns the end of the backtick run of `width` that closes a span
pub fn closing_run(bytes: &[u8], from: usize, width: usize) -> (r: Option<usize>)
    requires
        from <= bytes@.len(),
    ensures
        match r {
            Some(c) => closing_spec(bytes@, from as int, width as int) == Some(c as int),
            None => closing_spec(bytes@, from as int, width as int) is None,
        },
{
    let mut index = from;
    while index < bytes.len()
        invariant
            from <= index <= bytes@.len(),
            closing_spec(bytes@, index as int, width as int) == closing_spec(bytes@, from as int, width as int),
        decreases bytes@.len() - index,
    {
        if bytes[index] != 96u8 {
            index += 1;
            continue;
        }
        let start = index;
        proof {
            lemma_run_end(bytes@, index as int);
        }
        index = run_end(bytes, index);
        if index - start == width {
            return Some(index);
        }
    }
    None
}

fn push_fillers(out: &mut Vec<u8>, n: usize)
    ensures
        final(out)@ == old(out)@ + fillers(n as int),
{
    let ghost start = out@;
    let mut k: usize = 0;
    while k < n
        invariant
            k <= n,
            out@ == start + fillers(k as int),
        decreases n - k,
    {
        out.push(120u8);
        k += 1;
        assert(out@ =~= start + fillers(k as int));
    }
}

/// Masks every `` `code` `` span in the paragraph
///
/// A span that never closes is masked to the end of the paragraph, which
/// keeps an unbalanced backtick from exposing the code after it.
pub fn mask_code_spans(bytes: &mut Vec<u8>)
    ensures
        final(bytes)@ == code_mask(old(bytes)@, 0),
        final(bytes)@.len() == old(bytes)@.len(),
{
    proof {
        lemma_code_mask_len(bytes@, 0);
    }
    let ghost b = bytes@;
    let n = bytes.len();
    let mut out: Vec<u8> = Vec::new();
    let mut index: usize = 0;
    while index < n
        invariant
            b == bytes@,
            n == b.len(),
            index <= n,
            out@ + code_mask(b, index as int) == code_mask(b, 0),
        decreases n - index,
    {
        if bytes[index] != 96u8 {
            let ghost before = out@;
            out.push(bytes[index]);
            assert(before + code_mask(b, index as int) =~= out@ + code_mask(b, index + 1));
            index += 1;
            continue;
        }
        let start = index;
        proof {
            lemma_run_end(b, index as int);
        }
        let e = run_end(bytes.as_slice(), index);
        let width = e - start;
        proof {
            lemma_closing(b, e as int, width as int);
        }
        let end = match closing_run(bytes.as_slice(), e, width) {
            Some(c) => c,
            None => n,
        };
        let ghost before = out@;
        push_fillers(&mut out, end - start);
        assert(before + code_mask(b, start as int) =~= out@ + code_mask(b, end as int));
        index = end;
    }
    assert(code_mask(b, n as int) =~= Seq::<u8>::empty());
    assert(out@ =~= code_mask(b, 0));
    *bytes = out;
}

/// Masks every double-quoted run in the paragraph
///
/// A quotation reproduces someone else's punctuation, so the writer of the
/// doc comment cannot repair it. An unpaired quote masks nothing.
pub fn mask_quotes(bytes: &mut Vec<u8>)
    ensures
        final(bytes)@ == quote_mask(old(bytes)@, 0),
        final(bytes)@.len() == old(bytes)@.len(),
{
    proof {
        lemma_quote_mask_len(bytes@, 0);
    }
    let ghost b = bytes@;
    let n = bytes.len();
    let mut out: Vec<u8> = Vec::new();
    let mut index: usize = 0;
    while index < n
        invariant
            b == bytes@,
            b == old(bytes)@,
            n == b.len(),
            index <= n,
            out@ + quote_mask(b, index as int) == quote_mask(b, 0),
        decreases n - index,
    {
        if bytes[index] != 34u8 {
            let ghost before = out@;
            out.push(bytes[index]);
            assert(before + quote_mask(b, index as int) =~= out@ + quote_mask(b, index + 1));
            index += 1;
            continue;
        }
        proof {
            lemma_find_byte(b, 34u8, index + 1);
        }
        let mut j = index + 1;
        while j < n && bytes[j] != 34u8
            invariant
                b == bytes@,
                n == b.len(),
                index < j <= n,
                find_byte(b, 34u8, j as int) == find_byte(b, 34u8, index + 1),
            decreases n - j,
        {
            j += 1;
        }
        if j == n {
            let ghost before = out@;
            assert(quote_mask(b, index as int) == b.subrange(index as int, n as int));
            let mut k = index;
            while k < n
                invariant
                    b == bytes@,
                    b == old(bytes)@,
                    n == b.len(),
                    index < n,
                    index <= k <= n,
                    out@ == before + b.subrange(index as int, k as int),
                    before + quote_mask(b, index as int) == quote_mask(b, 0),
                    quote_mask(b, index as int) == b.subrange(index as int, n as int),
                decreases n - k,
            {
                out.push(bytes[k]);
                k += 1;
                assert(out@ =~= before + b.subrange(index as int, k as int));
            }
            assert(out@ =~= quote_mask(b, 0));
            proof {
                lemma_quote_mask_len(b, 0);
            }
            *bytes = out;
            return;
        }
        let ghost before = out@;
        push_fillers(&mut out, j + 1 - index);
        assert(before + quote_mask(b, index as int) =~= out@ + quote_mask(b, j + 1));
        index = j + 1;
    }
    assert(quote_mask(b, n as int) =~= Seq::<u8>::empty());
    assert(out@ =~= quote_mask(b, 0));
    *bytes = out;
}

/// Hides code spans and quoted text behind the filler byte
///
/// A dash inside a code span or a quotation belongs to the code or to
/// whoever is quoted. The filler is as long as what it hides, so byte
/// offsets stay correct.
pub fn mask(text: &str) -> (r: Vec<u8>)
    ensures
        r@ == mask_spec(text@),
        r@.len() == encode_utf8(text@).len(),
{
    let source = text.as_bytes();
    let mut bytes: Vec<u8> = Vec::new();
    let mut k: usize = 0;
    while k < source.len()
        invariant
            k <= source@.len(),
            bytes@ == source@.subrange(0, k as int),
        decreases source@.len() - k,
    {
        bytes.push(source[k]);
        k += 1;
        assert(bytes@ =~= source@.subrange(0, k as int));
    }
    assert(bytes@ =~= encode_utf8(text@));
    mask_code_spans(&mut bytes);
    proof {
        lemma_code_mask_len(encode_utf8(text@), 0);
        lemma_quote_mask_len(code_mask(encode_utf8(text@), 0), 0);
    }
    mask_quotes(&mut bytes);
    bytes
}

/// The bytes of an em dash
pub open spec fn em_bytes() -> Seq<u8> {
    seq![0xE2u8, 0x80u8, 0x94u8]
}

/// The bytes of an en dash
pub open spec fn en_bytes() -> Seq<u8> {
    seq![0xE2u8, 0x80u8, 0x93u8]
}

/// Whether `m` holds `p` from byte `i` on
pub open spec fn has_bytes(m: Seq<u8>, i: int, p: Seq<u8>) -> bool {
    0 <= i && i + p.len() <= m.len() && m.subrange(i, i + p.len()) == p
}

/// Whether whitespace or the start of the text precedes byte `i`
pub open spec fn before_spaced(m: Seq<u8>, i: int) -> bool {
    i == 0 || ascii_ws(m[i - 1])
}

/// Whether whitespace or the end of the text follows at byte `i`
pub open spec fn after_spaced(m: Seq<u8>, i: int) -> bool {
    i >= m.len() || ascii_ws(m[i])
}

/// Where the run of hyphens that starts at `i` ends
pub open spec fn hyphen_end(m: Seq<u8>, i: int) -> int
    decreases m.len() - i,
{
    if 0 <= i < m.len() && m[i] == 45u8 {
        hyphen_end(m, i + 1)
    } else {
        i
    }
}

pub proof fn lemma_hyphen_end(m: Seq<u8>, i: int)
    requires
        0 <= i <= m.len(),
    ensures
        i <= hyphen_end(m, i) <= m.len(),
        i < m.len() && m[i] == 45u8 ==> i < hyphen_end(m, i),
    decreases m.len() - i,
{
    if i < m.len() && m[i] == 45u8 {
        lemma_hyphen_end(m, i + 1);
    }
}

/// The dash that starts at byte `i`, and where it ends
///
/// An en dash counts only when a space touches it, because a tight en dash
/// joins the ends of a range. A hyphen counts only when spaces touch both
/// sides, because a tight hyphen joins two words.
pub open spec fn dash_spec(m: Seq<u8>, i: int) -> Option<(AsideKind, int)> {
    if has_bytes(m, i, em_bytes()) {
        Some((AsideKind::EmDash, i + 3))
    } else if has_bytes(m, i, en_bytes()) {
        if !before_spaced(m, i) && !after_spaced(m, i + 3) {
            None
        } else {
            Some((AsideKind::EnDash, i + 3))
        }
    } else if m[i] != 45u8 {
        None
    } else {
        let end = hyphen_end(m, i);
        if !before_spaced(m, i) || !after_spaced(m, end) {
            None
        } else {
            Some((AsideKind::SpacedHyphen, end))
        }
    }
}

proof fn lemma_hyphen_end_at(m: Seq<u8>, i: int, e: int)
    requires
        0 <= i <= e <= m.len(),
        forall|k: int| i <= k < e ==> m[k] == 45u8,
        e == m.len() || m[e] != 45u8,
    ensures
        hyphen_end(m, i) == e,
    decreases e - i,
{
    if i < e {
        lemma_hyphen_end_at(m, i + 1, e);
    }
}

/// A run of one or more hyphens with whitespace or the edge of the text on
/// both sides is a spaced-hyphen aside that spans the whole run, however
/// long the run is
pub proof fn law_spaced_hyphen_run(m: Seq<u8>, i: int, e: int)
    requires
        0 <= i < e <= m.len(),
        forall|k: int| i <= k < e ==> m[k] == 45u8,
        e == m.len() || m[e] != 45u8,
        i == 0 || m[i - 1] == 32u8 || m[i - 1] == 9u8 || m[i - 1] == 10u8 || m[i - 1] == 12u8 || m[i - 1] == 13u8,
        e == m.len() || m[e] == 32u8 || m[e] == 9u8 || m[e] == 10u8 || m[e] == 12u8 || m[e] == 13u8,
    ensures
        dash_spec(m, i) == Some((AsideKind::SpacedHyphen, e)),
{
    lemma_hyphen_end_at(m, i, e);
    assert(m[i] == 45u8);
    assert(!has_bytes(m, i, em_bytes())) by {
        if has_bytes(m, i, em_bytes()) {
            assert(m.subrange(i, i + 3)[0] == em_bytes()[0]);
        }
    }
    assert(!has_bytes(m, i, en_bytes())) by {
        if has_bytes(m, i, en_bytes()) {
            assert(m.subrange(i, i + 3)[0] == en_bytes()[0]);
        }
    }
}

pub proof fn lemma_dash_end(m: Seq<u8>, i: int)
    requires
        0 <= i < m.len(),
    ensures
        dash_spec(m, i) matches Some(d) ==> i < d.1 <= m.len(),
{
    lemma_hyphen_end(m, i);
}

/// Returns whether whitespace or the start of the line precedes `index`
pub fn spaced_before(masked: &[u8], index: usize) -> (r: bool)
    requires
        index <= masked@.len(),
    ensures
        r == before_spaced(masked@, index as int),
{
    if index == 0 {
        true
    } else {
        let b = masked[index - 1];
        b == 32u8 || b == 9u8 || b == 10u8 || b == 12u8 || b == 13u8
    }
}

/// Returns whether whitespace or the end of the line follows `index`
pub fn spaced_after(masked: &[u8], index: usize) -> (r: bool)
    ensures
        r == after_spaced(masked@, index as int),
{
    if index >= masked.len() {
        true
    } else {
        let b = masked[index];
        b == 32u8 || b == 9u8 || b == 10u8 || b == 12u8 || b == 13u8
    }
}

/// Returns whether a byte is part of the sentence rather than a gap
pub fn is_content(byte: &u8) -> (r: bool)
    ensures
        r == !ascii_ws(*byte),
{
    let b = *byte;
    !(b == 32u8 || b == 9u8 || b == 10u8 || b == 12u8 || b == 13u8)
}

fn bytes_at(m: &[u8], i: usize, a: u8, b: u8, c: u8) -> (r: bool)
    requires
        i <= m@.len(),
    ensures
        r == has_bytes(m@, i as int, seq![a, b, c]),
{
    if m.len() - i < 3 {
        return false;
    }
    let r = m[i] == a && m[i + 1] == b && m[i + 2] == c;
    assert(r ==> m@.subrange(i as int, i + 3) =~= seq![a, b, c]);
    assert(m@.subrange(i as int, i + 3)[0] == m@[i as int]);
    assert(m@.subrange(i as int, i + 3)[1] == m@[i + 1]);
    assert(m@.subrange(i as int, i + 3)[2] == m@[i + 2]);
    r
}

/// Returns the dash that starts at `index`, and where it ends
pub fn dash_at(masked: &[u8], index: usize) -> (r: Option<(AsideKind, usize)>)
    requires
        index < masked@.len(),
    ensures
        match r {
            Some((k, e)) => dash_spec(masked@, index as int) == Some((k, e as int)),
            None => dash_spec(masked@, index as int) is None,
        },
{
    let n = masked.len();
    if bytes_at(masked, index, 0xE2u8, 0x80u8, 0x94u8) {
        return Some((AsideKind::EmDash, index + 3));
    }
    if bytes_at(masked, index, 0xE2u8, 0x80u8, 0x93u8) {
        let end = index + 3;
        if !spaced_before(masked, index) && !spaced_after(masked, end) {
            return None;
        }
        return Some((AsideKind::EnDash, end));
    }
    if masked[index] != 45u8 {
        return None;
    }
    let mut end = index;
    while end < masked.len() && masked[end] == 45u8
        invariant
            index <= end <= masked@.len(),
            hyphen_end(masked@, end as int) == hyphen_end(masked@, index as int),
        decreases masked@.len() - end,
    {
        end += 1;
    }
    if !spaced_before(masked, index) || !spaced_after(masked, end) {
        return None;
    }
    Some((AsideKind::SpacedHyphen, end))
}

/// Whether some byte of `m[a..b]` is not whitespace
pub open spec fn any_content(m: Seq<u8>, a: int, b: int) -> bool {
    exists|j: int| a <= j < b && !ascii_ws(#[trigger] m[j])
}

fn has_content(m: &[u8], a: usize, b: usize) -> (r: bool)
    requires
        a <= b <= m@.len(),
    ensures
        r == any_content(m@, a as int, b as int),
{
    let mut j = a;
    while j < b
        invariant
            a <= j <= b <= m@.len(),
            forall|k: int| a <= k < j ==> ascii_ws(#[trigger] m@[k]),
        decreases b - j,
    {
        if is_content(&m[j]) {
            return true;
        }
        j += 1;
    }
    false
}

/// The dashes the scan reports in `m` from byte `i` on: each with its kind,
/// its first byte, and the byte after it
pub open spec fn dashes_from(m: Seq<u8>, i: int) -> Seq<(AsideKind, int, int)>
    decreases m.len() - i,
{
    if i < 0 || i >= m.len() {
        Seq::empty()
    } else {
        proof {
            lemma_dash_end(m, i);
        }
        match dash_spec(m, i) {
            None => dashes_from(m, i + 1),
            Some(d) => (if any_content(m, 0, i) && any_content(m, d.1, m.len() as int) {
                seq![(d.0, i, d.1)]
            } else {
                Seq::empty()
            }) + dashes_from(m, d.1),
        }
    }
}

/// The lines `ls[..k]` joined by newlines
pub open spec fn joined_upto(ls: Seq<(Seq<char>, usize)>, k: int) -> Seq<char>
    decreases k,
{
    if k <= 0 {
        Seq::empty()
    } else if k == 1 {
        ls[0].0
    } else {
        joined_upto(ls, k - 1).push('\n') + ls[k - 1].0
    }
}

/// The byte where line `k` begins in the joined text
pub open spec fn line_start(ls: Seq<(Seq<char>, usize)>, k: int) -> int {
    if k <= 0 {
        0
    } else {
        utf8_size(joined_upto(ls, k).push('\n')) as int
    }
}

/// The bytes where the lines of `ls[..k]` begin in the joined text
pub open spec fn starts_upto(ls: Seq<(Seq<char>, usize)>, k: int) -> Seq<usize> {
    Seq::new(k as nat, |j: int| line_start(ls, j) as usize)
}

proof fn lemma_newline_size(s: Seq<char>)
    ensures
        utf8_size(s.push('\n')) == utf8_size(s) + 1,
{
    crate::text::lemma_utf8_size_push(s, '\n');
    assert(encode_scalar('\n' as u32).len() == 1);
}

proof fn lemma_concat_size(a: Seq<char>, b: Seq<char>)
    ensures
        utf8_size(a + b) == utf8_size(a) + utf8_size(b),
{
    lemma_encode_utf8_concat(a, b);
}

/// The sizes of the joined text and where each line starts
pub proof fn lemma_join_sizes(ls: Seq<(Seq<char>, usize)>, k: int)
    requires
        1 <= k <= ls.len(),
    ensures
        utf8_size(joined_upto(ls, k)) == line_start(ls, k - 1) + utf8_size(ls[k - 1].0),
        line_start(ls, k) == utf8_size(joined_upto(ls, k)) + 1,
        line_start(ls, k - 1) <= line_start(ls, k),
{
    lemma_newline_size(joined_upto(ls, k));
    if k > 1 {
        lemma_concat_size(joined_upto(ls, k - 1).push('\n'), ls[k - 1].0);
    }
}

/// Joins the lines of a paragraph, and reports where each one begins
///
/// The newline between two lines stands in for the space the writer would
/// have typed, so a dash at the end of a line still reads as spaced.
pub fn join(paragraph: &[DocLine]) -> (r: (String, Vec<usize>))
    ensures
        r.0@ == joined_upto(line_views(paragraph@), paragraph@.len() as int),
        r.1@ == starts_upto(line_views(paragraph@), paragraph@.len() as int),
{
    let ghost ls = line_views(paragraph@);
    let mut text = String::new();
    let mut starts: Vec<usize> = Vec::new();
    let mut index: usize = 0;
    while index < paragraph.len()
        invariant
            ls == line_views(paragraph@),
            index <= paragraph@.len(),
            text@ == joined_upto(ls, index as int),
            starts@ == starts_upto(ls, index as int),
        decreases paragraph@.len() - index,
    {
        let line = paragraph[index];
        assert(line_view(line) == ls[index as int]);
        if index > 0 {
            push_char(&mut text, '\n');
        }
        let here = text.as_str().as_bytes().len();
        assert(index == 0 ==> text@ =~= Seq::<char>::empty());
        starts.push(here);
        append(&mut text, line.text);
        assert(starts@ =~= starts_upto(ls, index + 1));
        assert(text@ =~= joined_upto(ls, index + 1));
        index += 1;
    }
    (text, starts)
}

/// The index of the first entry of `starts[k..]` past `index`, or the end
pub open spec fn first_past(starts: Seq<usize>, index: int, k: int) -> int
    decreases starts.len() - k,
{
    if k < 0 || k >= starts.len() {
        starts.len() as int
    } else if starts[k] > index {
        k
    } else {
        first_past(starts, index, k + 1)
    }
}

/// The line of the paragraph that byte `index` of the joined text falls in
pub open spec fn line_of(starts: Seq<usize>, index: int) -> int {
    let p = first_past(starts, index, 0);
    if p == 0 {
        0
    } else {
        p - 1
    }
}

/// The file offset of byte `index` of the joined paragraph
pub open spec fn locate_spec(ls: Seq<(Seq<char>, usize)>, starts: Seq<usize>, index: int) -> int {
    let pos = line_of(starts, index);
    ls[pos].1 + (index - starts[pos])
}

proof fn lemma_first_past(starts: Seq<usize>, index: int, k: int)
    requires
        0 <= k <= starts.len(),
    ensures
        k <= first_past(starts, index, k) <= starts.len(),
        forall|j: int| k <= j < first_past(starts, index, k) ==> starts[j] <= index,
        first_past(starts, index, k) < starts.len() ==> starts[first_past(starts, index, k)] > index,
    decreases starts.len() - k,
{
    if k < starts.len() && starts[k] <= index {
        lemma_first_past(starts, index, k + 1);
    }
}

/// Returns the file offset of a byte of the joined paragraph
///
/// The byte at `index` belongs to the last line that starts at or before it.
pub fn locate(paragraph: &[DocLine], starts: &[usize], index: usize) -> (r: usize)
    requires
        paragraph@.len() > 0,
        starts@ == starts_upto(line_views(paragraph@), paragraph@.len() as int),
        locate_spec(line_views(paragraph@), starts@, index as int) <= usize::MAX,
    ensures
        r == locate_spec(line_views(paragraph@), starts@, index as int),
{
    let mut p: usize = 0;
    while p < starts.len() && starts[p] <= index
        invariant
            p <= starts@.len(),
            first_past(starts@, index as int, p as int) == first_past(starts@, index as int, 0),
        decreases starts@.len() - p,
    {
        p += 1;
    }
    proof {
        lemma_first_past(starts@, index as int, 0);
    }
    let position = if p == 0 {
        0
    } else {
        p - 1
    };
    let line = paragraph[position];
    assert(line_view(line) == line_views(paragraph@)[position as int]);
    assert(starts@[0] == 0);
    line.offset + (index - starts[position])
}

/// The asides the scan finds in one paragraph, as file ranges
pub open spec fn scan_spec(ls: Seq<(Seq<char>, usize)>) -> Seq<(AsideKind, usize, usize)> {
    let n = ls.len() as int;
    let m = mask_spec(joined_upto(ls, n));
    let starts = starts_upto(ls, n);
    dashes_from(m, 0).map_values(
        |d: (AsideKind, int, int)| (d.0, locate_spec(ls, starts, d.1) as usize, (d.2 - d.1) as usize),
    )
}

/// The asides for the dashes that `m` holds from byte `i` on
pub open spec fn asides_from(ls: Seq<(Seq<char>, usize)>, starts: Seq<usize>, m: Seq<u8>, i: int) -> Seq<(AsideKind, usize, usize)> {
    dashes_from(m, i).map_values(
        |d: (AsideKind, int, int)| (d.0, locate_spec(ls, starts, d.1) as usize, (d.2 - d.1) as usize),
    )
}

proof fn lemma_joined_grows(ls: Seq<(Seq<char>, usize)>, k: int, j: int)
    requires
        0 <= k <= j <= ls.len(),
    ensures
        utf8_size(joined_upto(ls, k)) <= utf8_size(joined_upto(ls, j)),
        k < j ==> line_start(ls, k) <= utf8_size(joined_upto(ls, j)),
    decreases j - k,
{
    if k < j {
        lemma_joined_grows(ls, k + 1, j);
        lemma_join_sizes(ls, k + 1);
        if k > 0 {
            lemma_join_sizes(ls, k);
        }
    }
}

/// A byte of the joined paragraph, or the end of it, has a file offset that
/// fits, when every line does
pub proof fn lemma_locate_fits(ls: Seq<(Seq<char>, usize)>, index: int)
    requires
        ls.len() >= 1,
        all_fit(ls),
        0 <= index <= utf8_size(joined_upto(ls, ls.len() as int)),
        utf8_size(joined_upto(ls, ls.len() as int)) <= usize::MAX,
    ensures
        locate_spec(ls, starts_upto(ls, ls.len() as int), index) <= usize::MAX,
{
    let n = ls.len() as int;
    let starts = starts_upto(ls, n);
    lemma_first_past(starts, index, 0);
    let p = first_past(starts, index, 0);
    assert(starts[0] == 0);
    assert(p >= 1);
    let pos = p - 1;
    assert(line_fits(ls[pos]));
    lemma_joined_grows(ls, pos, n);
    if p < n {
        lemma_joined_grows(ls, p, n);
        lemma_join_sizes(ls, p);
        assert(starts[p] == line_start(ls, p));
    } else {
        lemma_join_sizes(ls, n);
    }
    assert(starts[pos] == line_start(ls, pos));
}


/// Masking keeps each byte or replaces it with the filler
pub proof fn lemma_code_mask_bytes(b: Seq<u8>, i: int)
    requires
        0 <= i <= b.len(),
    ensures
        code_mask(b, i).len() == b.len() - i,
        forall|k: int| 0 <= k < code_mask(b, i).len() ==> #[trigger] code_mask(b, i)[k] == b[i + k] || code_mask(b, i)[k] == filler(),
    decreases b.len() - i,
{
    lemma_code_mask_len(b, i);
    if i < b.len() {
        if b[i] != 96u8 {
            lemma_code_mask_bytes(b, i + 1);
            let r = code_mask(b, i + 1);
            assert forall|k: int| 0 <= k < code_mask(b, i).len() implies #[trigger] code_mask(b, i)[k] == b[i + k] || code_mask(b, i)[k] == filler() by {
                if k > 0 {
                    assert(code_mask(b, i)[k] == r[k - 1]);
                }
            }
        } else {
            lemma_run_end(b, i);
            let e = run_end_spec(b, i);
            lemma_closing(b, e, e - i);
            let end = match closing_spec(b, e, e - i) {
                Some(c) => c,
                None => b.len() as int,
            };
            lemma_code_mask_bytes(b, end);
            let r = code_mask(b, end);
            assert forall|k: int| 0 <= k < code_mask(b, i).len() implies #[trigger] code_mask(b, i)[k] == b[i + k] || code_mask(b, i)[k] == filler() by {
                if k >= end - i {
                    assert(code_mask(b, i)[k] == r[k - (end - i)]);
                }
            }
        }
    }
}

/// Masking quotations keeps each byte or replaces it with the filler
pub proof fn lemma_quote_mask_bytes(b: Seq<u8>, i: int)
    requires
        0 <= i <= b.len(),
    ensures
        quote_mask(b, i).len() == b.len() - i,
        forall|k: int| 0 <= k < quote_mask(b, i).len() ==> #[trigger] quote_mask(b, i)[k] == b[i + k] || quote_mask(b, i)[k] == filler(),
    decreases b.len() - i,
{
    lemma_quote_mask_len(b, i);
    if i < b.len() {
        if b[i] != 34u8 {
            lemma_quote_mask_bytes(b, i + 1);
            let r = quote_mask(b, i + 1);
            assert forall|k: int| 0 <= k < quote_mask(b, i).len() implies #[trigger] quote_mask(b, i)[k] == b[i + k] || quote_mask(b, i)[k] == filler() by {
                if k > 0 {
                    assert(quote_mask(b, i)[k] == r[k - 1]);
                }
            }
        } else {
            lemma_find_byte(b, 34u8, i + 1);
            match find_byte(b, 34u8, i + 1) {
                None => {},
                Some(j) => {
                    lemma_quote_mask_bytes(b, j + 1);
                    let r = quote_mask(b, j + 1);
                    assert forall|k: int| 0 <= k < quote_mask(b, i).len() implies #[trigger] quote_mask(b, i)[k] == b[i + k] || quote_mask(b, i)[k] == filler() by {
                        if k >= j + 1 - i {
                            assert(quote_mask(b, i)[k] == r[k - (j + 1 - i)]);
                        }
                    }
                },
            }
        }
    }
}

/// The bytes of a dash are never a newline nor the filler
pub proof fn lemma_dash_bytes(m: Seq<u8>, i: int)
    requires
        0 <= i < m.len(),
        dash_spec(m, i) is Some,
    ensures
        forall|x: int| i <= x < dash_spec(m, i).unwrap().1 ==> #[trigger] m[x] != 10u8 && m[x] != filler(),
        dash_spec(m, i).unwrap().1 <= m.len(),
{
    lemma_hyphen_end(m, i);
    if has_bytes(m, i, em_bytes()) {
        assert forall|x: int| i <= x < i + 3 implies #[trigger] m[x] != 10u8 && m[x] != filler() by {
            assert(m.subrange(i, i + 3)[x - i] == em_bytes()[x - i]);
        }
    } else if has_bytes(m, i, en_bytes()) {
        assert forall|x: int| i <= x < i + 3 implies #[trigger] m[x] != 10u8 && m[x] != filler() by {
            assert(m.subrange(i, i + 3)[x - i] == en_bytes()[x - i]);
        }
    } else {
        lemma_hyphen_run(m, i);
    }
}

proof fn lemma_hyphen_run(m: Seq<u8>, i: int)
    requires
        0 <= i <= m.len(),
    ensures
        forall|x: int| i <= x < hyphen_end(m, i) ==> #[trigger] m[x] == 45u8,
    decreases m.len() - i,
{
    if i < m.len() && m[i] == 45u8 {
        lemma_hyphen_run(m, i + 1);
    }
}

/// Each dash the scan reports is one `dash_spec` finds at its start
pub proof fn lemma_dashes_from(m: Seq<u8>, i: int)
    requires
        0 <= i,
    ensures
        forall|j: int|
            0 <= j < dashes_from(m, i).len() ==> {
                let d = #[trigger] dashes_from(m, i)[j];
                &&& i <= d.1 < d.2 <= m.len()
                &&& dash_spec(m, d.1) == Some((d.0, d.2))
            },
    decreases m.len() - i,
{
    if i < m.len() {
        lemma_dash_end(m, i);
        match dash_spec(m, i) {
            None => {
                lemma_dashes_from(m, i + 1);
                assert(dashes_from(m, i) == dashes_from(m, i + 1));
            },
            Some(d) => {
                lemma_dashes_from(m, d.1);
                let rest = dashes_from(m, d.1);
                let here: Seq<(AsideKind, int, int)> = if any_content(m, 0, i) && any_content(m, d.1, m.len() as int) {
                    seq![(d.0, i, d.1)]
                } else {
                    Seq::empty()
                };
                assert(dashes_from(m, i) == here + rest);
                assert forall|j: int| 0 <= j < dashes_from(m, i).len() implies {
                    let e = #[trigger] dashes_from(m, i)[j];
                    &&& i <= e.1 < e.2 <= m.len()
                    &&& dash_spec(m, e.1) == Some((e.0, e.2))
                } by {
                    if j >= here.len() {
                        assert(dashes_from(m, i)[j] == rest[j - here.len()]);
                    }
                }
            },
        }
    }
}

/// The joined text of the first lines is where the joined text of more lines
/// starts
proof fn lemma_joined_prefix(ls: Seq<(Seq<char>, usize)>, j: int, n: int)
    requires
        1 <= j <= n <= ls.len(),
    ensures
        encode_utf8(joined_upto(ls, n)).subrange(0, utf8_size(joined_upto(ls, j)) as int) == encode_utf8(joined_upto(ls, j)),
        utf8_size(joined_upto(ls, j)) <= utf8_size(joined_upto(ls, n)),
    decreases n - j,
{
    if j < n {
        lemma_joined_prefix(ls, j, n - 1);
        let a = joined_upto(ls, n - 1).push('\n');
        lemma_encode_utf8_concat(a, ls[n - 1].0);
        lemma_encode_utf8_concat(joined_upto(ls, n - 1), seq!['\n']);
        assert(joined_upto(ls, n - 1).push('\n') =~= joined_upto(ls, n - 1) + seq!['\n']);
        assert(joined_upto(ls, n) == a + ls[n - 1].0);
        let big = encode_utf8(joined_upto(ls, n));
        let mid = encode_utf8(joined_upto(ls, n - 1));
        let small = encode_utf8(joined_upto(ls, j));
        assert(big.subrange(0, mid.len() as int) =~= mid);
        assert(big.subrange(0, small.len() as int) =~= mid.subrange(0, small.len() as int));
    } else {
        assert(encode_utf8(joined_upto(ls, n)).subrange(0, utf8_size(joined_upto(ls, n)) as int) =~= encode_utf8(joined_upto(ls, n)));
    }
}

/// The byte between lines `k - 1` and `k` of the joined text is a newline
proof fn lemma_separator(ls: Seq<(Seq<char>, usize)>, k: int, n: int)
    requires
        1 <= k < n <= ls.len(),
    ensures
        utf8_size(joined_upto(ls, k)) < utf8_size(joined_upto(ls, n)),
        encode_utf8(joined_upto(ls, n))[utf8_size(joined_upto(ls, k)) as int] == 10u8,
{
    let a = joined_upto(ls, k);
    lemma_encode_utf8_concat(a.push('\n'), ls[k].0);
    lemma_encode_utf8_concat(a, seq!['\n']);
    assert(a.push('\n') =~= a + seq!['\n']);
    assert(seq!['\n'].drop_first() =~= Seq::<char>::empty());
    assert(encode_utf8(seq!['\n']) =~= encode_scalar('\n' as u32) + encode_utf8(Seq::<char>::empty()));
    assert(('\n' as u32) == 10u32);
    assert((10u32 & 0x7Fu32) as u8 == 10u8) by (bit_vector);
    assert(encode_scalar('\n' as u32) =~= seq![10u8]);
    let e1 = encode_utf8(joined_upto(ls, k + 1));
    assert(e1[utf8_size(a) as int] == 10u8);
    lemma_joined_prefix(ls, k + 1, n);
    let big = encode_utf8(joined_upto(ls, n));
    assert(big.subrange(0, e1.len() as int)[utf8_size(a) as int] == big[utf8_size(a) as int]);
}

/// A dash the scan reports lies inside one line, so its end has a file
/// offset that fits
pub proof fn lemma_dash_fits(ls: Seq<(Seq<char>, usize)>, index: int, end: int)
    requires
        ls.len() >= 1,
        all_fit(ls),
        utf8_size(joined_upto(ls, ls.len() as int)) <= usize::MAX,
        0 <= index < end,
        end <= mask_spec(joined_upto(ls, ls.len() as int)).len(),
        dash_spec(mask_spec(joined_upto(ls, ls.len() as int)), index) matches Some(d) && d.1 == end,
    ensures
        locate_spec(ls, starts_upto(ls, ls.len() as int), index) + (end - index) <= usize::MAX,
{
    let n = ls.len() as int;
    let text = joined_upto(ls, n);
    let enc = encode_utf8(text);
    let m = mask_spec(text);
    lemma_code_mask_bytes(enc, 0);
    lemma_quote_mask_bytes(code_mask(enc, 0), 0);
    lemma_dash_bytes(m, index);
    let starts = starts_upto(ls, n);
    lemma_first_past(starts, index, 0);
    let p = first_past(starts, index, 0);
    assert(starts[0] == 0);
    let pos = p - 1;
    assert(line_fits(ls[pos]));
    lemma_joined_grows(ls, pos, n);
    assert(starts[pos] == line_start(ls, pos));
    if p < n {
        lemma_join_sizes(ls, p);
        lemma_joined_grows(ls, p, n);
        assert(starts[p] == line_start(ls, p));
        let sep = utf8_size(joined_upto(ls, p)) as int;
        lemma_separator(ls, p, n);
        assert(enc[sep] == 10u8);
        assert(m[sep] == code_mask(enc, 0)[sep] || m[sep] == filler());
        assert(m[sep] == 10u8 || m[sep] == filler());
        assert(!(index <= sep < end));
    } else {
        lemma_join_sizes(ls, n);
    }
}

/// Records every dash aside in one paragraph
///
/// The paragraph is scanned as a single text, because a dash only
/// interrupts a sentence when prose sits on both sides of it and that prose
/// may be a line away. Joining also lets the mask cover a code span or a
/// quotation that wraps across two lines.
pub fn scan(paragraph: &[DocLine], asides: &mut Vec<Aside>)
    requires
        all_fit(line_views(paragraph@)),
    ensures
        aside_views(final(asides)@) == aside_views(old(asides)@) + scan_spec(line_views(paragraph@)),
        forall|k: int| 0 <= k < old(asides)@.len() ==> #[trigger] final(asides)@[k] == old(asides)@[k],
        forall|k: int|
            old(asides)@.len() <= k < final(asides)@.len() ==> #[trigger] final(asides)@[k].offset
                + final(asides)@[k].length <= usize::MAX,
{
    let ghost ls = line_views(paragraph@);
    let ghost first = asides@;
    let (text, starts) = join(paragraph);
    let masked = mask(text.as_str());
    let ghost m = masked@;
    let ghost st = starts@;
    let ghost start_views = aside_views(asides@);
    let n = masked.len();
    let mut index: usize = 0;
    while index < n
        invariant
            ls == line_views(paragraph@),
            all_fit(ls),
            m == masked@,
            m == mask_spec(joined_upto(ls, ls.len() as int)),
            n == m.len(),
            n == utf8_size(joined_upto(ls, ls.len() as int)),
            st == starts@,
            st == starts_upto(ls, ls.len() as int),
            index <= n,
            aside_views(asides@) + asides_from(ls, st, m, index as int) == start_views + asides_from(ls, st, m, 0),
            first == old(asides)@,
            start_views == aside_views(first),
            asides@.len() >= first.len(),
            forall|k: int| 0 <= k < first.len() ==> #[trigger] asides@[k] == first[k],
            forall|k: int| first.len() <= k < asides@.len() ==> #[trigger] asides@[k].offset + asides@[k].length <= usize::MAX,
        decreases n - index,
    {
        proof {
            lemma_dash_end(m, index as int);
        }
        let ghost before = aside_views(asides@);
        match dash_at(masked.as_slice(), index) {
            None => {
                assert(asides_from(ls, st, m, index as int) =~= asides_from(ls, st, m, index + 1));
                index += 1;
            },
            Some((kind, end)) => {
                let leading = has_content(masked.as_slice(), 0, index);
                let trailing = has_content(masked.as_slice(), end, n);
                if leading && trailing {
                    if paragraph.len() == 0 {
                        assert(joined_upto(ls, 0) =~= Seq::<char>::empty());
                        assert(false);
                    }
                    proof {
                        lemma_locate_fits(ls, index as int);
                        lemma_dash_fits(ls, index as int, end as int);
                    }
                    let offset = locate(paragraph, starts.as_slice(), index);
                    let a = Aside { kind, offset, length: end - index };
                    asides.push(a);
                    assert(aside_views(asides@) =~= before.push(aside_view(a)));
                    assert(asides_from(ls, st, m, index as int) =~= seq![aside_view(a)] + asides_from(ls, st, m, end as int));
                } else {
                    assert(asides_from(ls, st, m, index as int) =~= asides_from(ls, st, m, end as int));
                }
                index = end;
            },
        }
    }
    assert(asides_from(ls, st, m, n as int) =~= Seq::<(AsideKind, usize, usize)>::empty());
}

} // verus!
