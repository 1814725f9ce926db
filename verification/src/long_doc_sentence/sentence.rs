//! Splitting doc comment prose into sentences
//!
//! Positions inside a line or a paragraph count characters. A position that
//! leaves the module, such as the start of a [`Sentence`], is a byte offset
//! into the file: the characters before it are measured by the length of
//! their UTF-8 encoding.
use vstd::prelude::*;

use crate::long_doc_sentence::doc_line::DocLine;
use crate::text::{
    alphanumeric, byte_len, byte_len_checked, checked_size, char_is_alphanumeric, is_ascii_alphabetic, char_is_lowercase, chars_of, is_ascii_digit,
    is_ascii_letter, is_ascii_whitespace, is_ascii_ws, is_digit, is_whitespace, is_ws, lemma_trim_back_bounds, trim_back, trim_back_from,
    lemma_skip_ws_bounds, lemma_utf8_size_mono, lemma_utf8_size_push, lemma_utf8_size_split,
    lowercase, skip_whitespace, skip_ws, string_of, utf8_size, width,
};

verus! {

broadcast use vstd::seq_lib::group_seq_properties;

/// One sentence of doc comment prose
///
/// The range is in file bytes, so it covers the `///` markers of the lines
/// the sentence continues onto.
#[derive(Copy, Clone, Eq, PartialEq, Ord, PartialOrd, Hash, Debug)]
pub struct Sentence {
    words: usize,
    start: usize,
    end: usize,
}

impl Sentence {
    /// How many words the sentence has
    pub closed spec fn spec_words(self) -> usize {
        self.words
    }

    /// The byte offset where the sentence starts in the file
    pub closed spec fn spec_start(self) -> usize {
        self.start
    }

    /// The byte offset one past the end of the sentence
    pub closed spec fn spec_end(self) -> usize {
        self.end
    }

    /// Returns how many words the sentence has
    pub fn words(&self) -> (r: usize)
        ensures
            r == self.spec_words(),
    {
        self.words
    }

    /// Returns the byte offset where the sentence starts in the file
    pub fn start(&self) -> (r: usize)
        ensures
            r == self.spec_start(),
    {
        self.start
    }

    /// Returns the byte offset one past the end of the sentence
    pub fn end(&self) -> (r: usize)
        ensures
            r == self.spec_end(),
    {
        self.end
    }
}

/// The length of the run of `c` that starts at `i`
pub open spec fn run_len(s: Seq<char>, i: int, c: char) -> nat
    decreases s.len() - i,
{
    if 0 <= i < s.len() && s[i] == c {
        1 + run_len(s, i + 1, c)
    } else {
        0
    }
}

pub proof fn lemma_run_len(s: Seq<char>, i: int, c: char)
    requires
        0 <= i <= s.len(),
    ensures
        i + run_len(s, i, c) <= s.len(),
        forall|k: int| i <= k < i + run_len(s, i, c) ==> s[k] == c,
        i + run_len(s, i, c) < s.len() ==> s[i + run_len(s, i, c)] != c,
    decreases s.len() - i,
{
    if i < s.len() && s[i] == c {
        lemma_run_len(s, i + 1, c);
    }
}

/// Returns the length of the run of `c` that starts at `i`
pub fn count_run(s: &[char], i: usize, c: char) -> (r: usize)
    requires
        i <= s@.len(),
    ensures
        r == run_len(s@, i as int, c),
        i + r <= s@.len(),
{
    let mut k = i;
    while k < s.len() && s[k] == c
        invariant
            i <= k <= s@.len(),
            run_len(s@, i as int, c) == (k - i) + run_len(s@, k as int, c),
        decreases s@.len() - k,
    {
        k += 1;
    }
    k - i
}

/// The length of the run of ASCII digits that starts at `i`
pub open spec fn digit_run(s: Seq<char>, i: int) -> nat
    decreases s.len() - i,
{
    if 0 <= i < s.len() && is_digit(s[i]) {
        1 + digit_run(s, i + 1)
    } else {
        0
    }
}

pub fn count_digits(s: &[char], i: usize) -> (r: usize)
    requires
        i <= s@.len(),
    ensures
        r == digit_run(s@, i as int),
        i + r <= s@.len(),
{
    let mut k = i;
    while k < s.len() && is_ascii_digit(s[k])
        invariant
            i <= k <= s@.len(),
            digit_run(s@, i as int) == (k - i) + digit_run(s@, k as int),
        decreases s@.len() - k,
    {
        k += 1;
    }
    k - i
}

/// The run of backticks or tildes that opens or closes a code block
///
/// Markdown closes a block only with the character that opened it, repeated
/// at least as many times, and with no language label.
#[derive(Copy, Clone, Eq, PartialEq, Ord, PartialOrd, Hash, Debug)]
pub struct Fence {
    character: char,
    length: usize,
    labeled: bool,
}

/// The fence that the text from `from` on carries, if it carries one
pub closed spec fn fence_at(s: Seq<char>, from: int) -> Option<Fence> {
    if from < 0 || from >= s.len() {
        None
    } else {
        let c = s[from];
        if c != '`' && c != '~' {
            None
        } else {
            let n = run_len(s, from, c);
            if n < 3 {
                None
            } else {
                Some(
                    Fence {
                        character: c,
                        length: n as usize,
                        labeled: skip_ws(s, from + n) < s.len(),
                    },
                )
            }
        }
    }
}

/// Whether the fence `f` closes the block that `opened` started
pub closed spec fn fence_closes(f: Fence, opened: Fence) -> bool {
    f.character == opened.character && f.length >= opened.length && !f.labeled
}

fn fence_in(s: &[char], from: usize) -> (r: Option<Fence>)
    requires
        from <= s@.len(),
    ensures
        r == fence_at(s@, from as int),
{
    if from >= s.len() {
        return None;
    }
    let c = s[from];
    if c != '`' && c != '~' {
        return None;
    }
    let n = count_run(s, from, c);
    if n < 3 {
        return None;
    }
    let rest = skip_whitespace(s, from + n);
    Some(Fence { character: c, length: n, labeled: rest < s.len() })
}

impl Fence {
    /// The character the fence repeats, a backtick or a tilde
    pub closed spec fn spec_character(self) -> char {
        self.character
    }

    /// How many times the fence repeats its character
    pub closed spec fn spec_length(self) -> usize {
        self.length
    }

    /// Whether a label such as a language name follows the fence
    pub closed spec fn spec_labeled(self) -> bool {
        self.labeled
    }

    /// Returns the fence the line carries, or nothing when it is prose
    pub fn of(text: &str) -> (r: Option<Self>)
        ensures
            r == fence_at(text@, 0),
    {
        let s = chars_of(text);
        fence_in(s.as_slice(), 0)
    }

    /// Returns whether this fence closes the block that `opened` started
    pub fn closes(&self, opened: Self) -> (r: bool)
        ensures
            r == fence_closes(*self, opened),
    {
        self.character == opened.character && self.length >= opened.length && !self.labeled
    }
}

/// What fence the text from `from` on carries: a run of three or more
/// backticks or tildes at `from`, labeled when anything but whitespace
/// follows the run
pub proof fn lemma_fence_at(s: Seq<char>, from: int)
    requires
        s.len() <= usize::MAX,
    ensures
        match fence_at(s, from) {
            Some(f) => {
                &&& 0 <= from < s.len()
                &&& (s[from] == '`' || s[from] == '~')
                &&& f.spec_character() == s[from]
                &&& f.spec_length() == run_len(s, from, s[from])
                &&& f.spec_length() >= 3
                &&& f.spec_labeled() == (skip_ws(s, from + run_len(s, from, s[from])) < s.len())
            },
            None => !(0 <= from < s.len() && (s[from] == '`' || s[from] == '~') && run_len(s, from, s[from]) >= 3),
        },
{
    if 0 <= from < s.len() {
        lemma_run_len(s, from, s[from]);
    }
}

/// A fence closes a block when it repeats the opening character at least
/// as many times, with no label
pub proof fn lemma_fence_closes(f: Fence, opened: Fence)
    ensures
        fence_closes(f, opened) == (f.spec_character() == opened.spec_character() && f.spec_length()
            >= opened.spec_length() && !f.spec_labeled()),
{
}

/// Whether the text from `from` on is a section heading such as `# Errors`
pub open spec fn heading_at(s: Seq<char>, from: int) -> bool {
    let h = run_len(s, from, '#');
    h > 0 && (from + h == s.len() || s[from + h] == ' ')
}

fn heading_in(s: &[char], from: usize) -> (r: bool)
    requires
        from <= s@.len(),
    ensures
        r == heading_at(s@, from as int),
{
    let n = s.len();
    let h = count_run(s, from, '#');
    h > 0 && (from + h == n || s[from + h] == ' ')
}

/// Returns whether the line is a rustdoc section heading such as `# Errors`
pub fn is_heading(text: &str) -> (r: bool)
    ensures
        r == heading_at(text@, 0),
{
    let s = chars_of(text);
    heading_in(s.as_slice(), 0)
}

/// Whether `]:` starts at position `k`
pub open spec fn bracket_colon(s: Seq<char>, k: int) -> bool {
    0 <= k && k + 1 < s.len() && s[k] == ']' && s[k + 1] == ':'
}

/// Whether the text from `from` on defines a reference-style Markdown link
pub open spec fn link_definition_at(s: Seq<char>, from: int) -> bool {
    &&& 0 <= from < s.len()
    &&& s[from] == '['
    &&& exists|k: int| from <= k && #[trigger] bracket_colon(s, k)
}

fn link_definition_in(s: &[char], from: usize) -> (r: bool)
    requires
        from <= s@.len(),
    ensures
        r == link_definition_at(s@, from as int),
{
    let n = s.len();
    if from >= n || s[from] != '[' {
        return false;
    }
    let mut k = from;
    while k < n && n - k > 1
        invariant
            n == s@.len(),
            from < n,
            s@[from as int] == '[',
            from <= k <= s@.len(),
            forall|j: int| from <= j < k ==> !#[trigger] bracket_colon(s@, j),
        decreases s@.len() - k,
    {
        if s[k] == ']' && s[k + 1] == ':' {
            assert(bracket_colon(s@, k as int));
            return true;
        }
        k += 1;
    }
    assert forall|j: int| from <= j implies !#[trigger] bracket_colon(s@, j) by {
        if j >= k {
            assert(j + 1 >= s@.len());
        }
    }
    false
}

/// Returns whether the line defines a reference-style Markdown link
pub fn is_link_definition(text: &str) -> (r: bool)
    ensures
        r == link_definition_at(text@, 0),
{
    let s = chars_of(text);
    link_definition_in(s.as_slice(), 0)
}

/// Whether a character opens a list item or a block quote when a space
/// follows it
pub open spec fn is_list_bullet(c: char) -> bool {
    c == '-' || c == '*' || c == '+' || c == '>'
}

/// The length of the list or quote marker that opens the text from `from`
pub open spec fn list_marker_at(s: Seq<char>, from: int) -> nat {
    if 0 <= from && from + 1 < s.len() && is_list_bullet(s[from]) && s[from + 1] == ' ' {
        2
    } else {
        let d = digit_run(s, from);
        if d == 0 {
            0
        } else if from + d + 1 < s.len() && (s[from + d] == '.' || s[from + d] == ')') && s[from
            + d + 1] == ' ' {
            d + 2
        } else {
            0
        }
    }
}

fn list_marker_in(s: &[char], from: usize) -> (r: usize)
    requires
        from <= s@.len(),
    ensures
        r == list_marker_at(s@, from as int),
        from + r <= s@.len(),
{
    let n = s.len();
    if from < n && n - from > 1 && (s[from] == '-' || s[from] == '*' || s[from] == '+' || s[from]
        == '>') && s[from + 1] == ' ' {
        return 2;
    }
    let d = count_digits(s, from);
    if d == 0 {
        return 0;
    }
    if from + d < n && n - (from + d) > 1 && (s[from + d] == '.' || s[from + d] == ')') && s[from + d + 1]
        == ' ' {
        d + 2
    } else {
        0
    }
}

/// Returns the length of the list or quote marker that opens the line
///
/// A line that opens neither yields zero.
pub fn list_marker(text: &str) -> (r: usize)
    ensures
        r == list_marker_at(text@, 0),
{
    let s = chars_of(text);
    list_marker_in(s.as_slice(), 0)
}

/// Returns how many backticks start at `index`
pub fn backtick_run(s: &[char], index: usize) -> (r: usize)
    requires
        index <= s@.len(),
    ensures
        r == run_len(s@, index as int, '`'),
        index + r <= s@.len(),
{
    count_run(s, index, '`')
}

/// The start of the first run of exactly `fence` backticks at or after
/// `from`, read run by run
pub open spec fn closing_bt(s: Seq<char>, from: int, fence: nat) -> Option<int>
    decreases s.len() - from,
{
    if from < 0 || from >= s.len() {
        None
    } else if s[from] != '`' {
        closing_bt(s, from + 1, fence)
    } else {
        let r = 1 + run_len(s, from + 1, '`');
        if r == fence {
            Some(from)
        } else {
            proof {
                lemma_run_len(s, from + 1, '`');
            }
            closing_bt(s, from + r, fence)
        }
    }
}

pub proof fn lemma_closing_bt(s: Seq<char>, from: int, fence: nat)
    requires
        0 <= from,
    ensures
        closing_bt(s, from, fence) matches Some(c) ==> from <= c && c + fence <= s.len()
            && run_len(s, c, '`') == fence,
    decreases s.len() - from,
{
    if from < s.len() {
        lemma_run_len(s, from, '`');
        if s[from] != '`' {
            lemma_closing_bt(s, from + 1, fence);
        } else {
            let r = run_len(s, from, '`');
            if r != fence {
                lemma_closing_bt(s, from + r, fence);
            }
        }
    }
}

/// Finds the run of exactly `fence` backticks that closes a code span
///
/// A span that never closes yields nothing, and the text stays unmasked.
pub fn closing_backticks(s: &[char], from: usize, fence: usize) -> (r: Option<usize>)
    requires
        from <= s@.len(),
    ensures
        r == (match closing_bt(s@, from as int, fence as nat) {
            Some(c) => Some(c as usize),
            None => None,
        }),
{
    let n = s.len();
    let mut index = from;
    while index < n
        invariant
            n == s@.len(),
            from <= index <= n,
            closing_bt(s@, index as int, fence as nat) == closing_bt(s@, from as int, fence as nat),
        decreases n - index,
    {
        if s[index] != '`' {
            index += 1;
            continue;
        }
        let run = backtick_run(s, index);
        if run == fence {
            return Some(index);
        }
        index += run;
    }
    None
}

/// A run of `n` filler characters
pub open spec fn xs(n: nat) -> Seq<char> {
    Seq::new(n, |_i: int| 'x')
}

/// The text from `i` on with the inside of every code span hidden
///
/// Each hidden character becomes `x`. With `per_byte`, it becomes one `x`
/// for every byte of its UTF-8 encoding, so the result has the byte length
/// of the input; without it, one `x` per character, so the result has the
/// character count of the input.
#[verifier::opaque]
pub open spec fn mask_from(s: Seq<char>, i: int, per_byte: bool) -> Seq<char>
    decreases s.len() - i,
{
    if i < 0 || i >= s.len() {
        Seq::empty()
    } else if s[i] != '`' {
        seq![s[i]] + mask_from(s, i + 1, per_byte)
    } else {
        let f = 1 + run_len(s, i + 1, '`');
        proof {
            lemma_run_len(s, i + 1, '`');
        }
        match closing_bt(s, i + f, f) {
            None => s.subrange(i, i + f) + mask_from(s, i + f, per_byte),
            Some(c) => {
                proof {
                    lemma_closing_bt(s, i + f, f);
                }
                let hidden = if per_byte {
                    utf8_size(s.subrange(i + f, c))
                } else {
                    (c - (i + f)) as nat
                };
                s.subrange(i, i + f) + xs(hidden) + s.subrange(c, c + f) + mask_from(
                    s,
                    c + f,
                    per_byte,
                )
            },
        }
    }
}

fn push_fillers(out: &mut Vec<char>, n: usize)
    ensures
        final(out)@ == old(out)@ + xs(n as nat),
{
    let ghost start = out@;
    let mut k: usize = 0;
    while k < n
        invariant
            k <= n,
            out@ == start + xs(k as nat),
        decreases n - k,
    {
        out.push('x');
        k += 1;
        assert(out@ =~= start + xs(k as nat));
    }
}

fn push_range(out: &mut Vec<char>, s: &[char], from: usize, to: usize)
    requires
        from <= to <= s@.len(),
    ensures
        final(out)@ == old(out)@ + s@.subrange(from as int, to as int),
{
    let ghost start = out@;
    let mut k = from;
    while k < to
        invariant
            from <= k <= to <= s@.len(),
            out@ == start + s@.subrange(from as int, k as int),
        decreases to - k,
    {
        out.push(s[k]);
        k += 1;
        assert(out@ =~= start + s@.subrange(from as int, k as int));
    }
}

proof fn lemma_mask_plain(s: Seq<char>, i: int, per_byte: bool)
    requires
        0 <= i < s.len(),
        s[i] != '`',
    ensures
        mask_from(s, i, per_byte) == seq![s[i]] + mask_from(s, i + 1, per_byte),
{
    reveal(mask_from);
}

proof fn lemma_mask_end(s: Seq<char>, i: int, per_byte: bool)
    requires
        i >= s.len(),
    ensures
        mask_from(s, i, per_byte) == Seq::<char>::empty(),
{
    reveal(mask_from);
}

proof fn lemma_mask_span(s: Seq<char>, i: int, per_byte: bool)
    requires
        0 <= i < s.len(),
        s[i] == '`',
    ensures
        ({
            let f = 1 + run_len(s, i + 1, '`');
            mask_from(s, i, per_byte) == match closing_bt(s, i + f, f) {
                None => s.subrange(i, i + f) + mask_from(s, i + f, per_byte),
                Some(c) => s.subrange(i, i + f) + xs(
                    if per_byte {
                        utf8_size(s.subrange(i + f, c))
                    } else {
                        (c - (i + f)) as nat
                    },
                ) + s.subrange(c, c + f) + mask_from(s, c + f, per_byte),
            }
        }),
{
    reveal(mask_from);
}

fn hidden_len(s: &[char], from: usize, to: usize, per_byte: bool) -> (r: usize)
    requires
        from <= to <= s@.len(),
        per_byte ==> utf8_size(s@) <= usize::MAX,
    ensures
        r == (if per_byte {
            utf8_size(s@.subrange(from as int, to as int))
        } else {
            (to - from) as nat
        }),
{
    if per_byte {
        let n = s.len();
        proof {
            assert(s@.subrange(0, n as int) =~= s@);
            lemma_utf8_size_mono(s@, from as int, to as int, n as int);
            lemma_utf8_size_mono(s@, 0, from as int, n as int);
            crate::text::lemma_utf8_size_split(s@, 0, from as int, n as int);
        }
        byte_len(s, from, to)
    } else {
        to - from
    }
}

#[verifier::spinoff_prover]
fn mask_one_span(s: &[char], index: usize, per_byte: bool, out: &mut Vec<char>) -> (next: usize)
    requires
        index < s@.len(),
        s@[index as int] == '`',
        per_byte ==> utf8_size(s@) <= usize::MAX,
    ensures
        index < next <= s@.len(),
        old(out)@ + mask_from(s@, index as int, per_byte) == final(out)@ + mask_from(
            s@,
            next as int,
            per_byte,
        ),
{
    let n = s.len();
    let fence = backtick_run(s, index);
    assert(fence == 1 + run_len(s@, index + 1, '`'));
    proof {
        lemma_mask_span(s@, index as int, per_byte);
        lemma_closing_bt(s@, (index + fence) as int, fence as nat);
    }
    let ghost before = out@;
    push_range(out, s, index, index + fence);
    let ghost opened = out@;
    match closing_backticks(s, index + fence, fence) {
        None => {
            assert(before + mask_from(s@, index as int, per_byte) =~= out@ + mask_from(
                s@,
                index + fence,
                per_byte,
            ));
            index + fence
        },
        Some(close) => {
            let hidden = hidden_len(s, index + fence, close, per_byte);
            push_fillers(out, hidden);
            push_range(out, s, close, close + fence);
            let ghost tail = mask_from(s@, close + fence, per_byte);
            assert(out@ == opened + xs(hidden as nat) + s@.subrange(close as int, close + fence));
            assert(before + mask_from(s@, index as int, per_byte) =~= out@ + tail);
            close + fence
        },
    }
}

/// Returns the text with the inside of every code span hidden
pub fn mask_spans(s: &[char], per_byte: bool) -> (r: Vec<char>)
    requires
        per_byte ==> utf8_size(s@) <= usize::MAX,
    ensures
        r@ == mask_from(s@, 0, per_byte),
{
    let n = s.len();
    let mut out: Vec<char> = Vec::new();
    let mut index: usize = 0;
    while index < n
        invariant
            n == s@.len(),
            index <= n,
            per_byte ==> utf8_size(s@) <= usize::MAX,
            out@ + mask_from(s@, index as int, per_byte) == mask_from(s@, 0, per_byte),
        decreases n - index,
    {
        if s[index] != '`' {
            let ghost before = out@;
            proof {
                lemma_mask_plain(s@, index as int, per_byte);
            }
            out.push(s[index]);
            assert(before + mask_from(s@, index as int, per_byte) =~= out@ + mask_from(
                s@,
                index + 1,
                per_byte,
            ));
            index += 1;
        } else {
            index = mask_one_span(s, index, per_byte, &mut out);
        }
    }
    proof {
        lemma_mask_end(s@, index as int, per_byte);
    }
    assert(out@ =~= mask_from(s@, 0, per_byte));
    out
}

/// Replaces the inside of every inline code span with `x`, byte for byte
///
/// A code span may hold anything, including periods and spaces, so the
/// splitter must not read it. The replacement keeps every byte offset intact
/// and leaves the span as a single word.
pub fn mask_code_spans(text: &str) -> (r: String)
    ensures
        r@ == mask_from(text@, 0, true),
        utf8_size(r@) == utf8_size(text@),
{
    proof {
        law_mask_keeps_byte_length(text@, 0);
        assert(text@.subrange(0, text@.len() as int) =~= text@);
    }
    let s = crate::text::text_chars(text);
    let masked = mask_spans(s.as_slice(), true);
    string_of(masked.as_slice())
}

/// Abbreviations that end in a period but never end a sentence
///
/// Forms with an inner period, such as `e.g.`, are left to
/// [`is_abbreviation`]. The list omits `etc.`, which ends a sentence as
/// often as not.
pub open spec fn abbreviations() -> Seq<Seq<char>> {
    seq![
        seq!['a', 'p', 'p', 'r', 'o', 'x', '.'],
        seq!['c', 'f', '.'],
        seq!['f', 'i', 'g', '.'],
        seq!['r', 'e', 's', 'p', '.'],
        seq!['v', 'i', 'z', '.'],
        seq!['v', 's', '.'],
    ]
}

/// Whether `a` and `b` are one character once ASCII case is ignored
pub open spec fn same_ignoring_case(a: char, b: char) -> bool {
    ||| a == b
    ||| ('A' <= a && a <= 'Z' && (a as u32) + 32 == (b as u32))
    ||| ('A' <= b && b <= 'Z' && (b as u32) + 32 == (a as u32))
}

/// Whether two texts are equal once ASCII case is ignored
pub open spec fn eq_ignoring_case(a: Seq<char>, b: Seq<char>) -> bool {
    a.len() == b.len() && forall|k: int| 0 <= k < a.len() ==> same_ignoring_case(a[k], b[k])
}

/// Whether the word is one of the listed abbreviations, in any ASCII case
pub open spec fn listed_abbreviation(word: Seq<char>) -> bool {
    exists|i: int| 0 <= i < abbreviations().len() && eq_ignoring_case(abbreviations()[i], word)
}

/// The listed abbreviations are exactly `approx.`, `cf.`, `fig.`, `resp.`,
/// `viz.`, and `vs.`, in any ASCII case: such a word never ends a sentence
pub proof fn law_listed_abbreviations(word: Seq<char>)
    ensures
        listed_abbreviation(word) <==> {
            ||| eq_ignoring_case(seq!['a', 'p', 'p', 'r', 'o', 'x', '.'], word)
            ||| eq_ignoring_case(seq!['c', 'f', '.'], word)
            ||| eq_ignoring_case(seq!['f', 'i', 'g', '.'], word)
            ||| eq_ignoring_case(seq!['r', 'e', 's', 'p', '.'], word)
            ||| eq_ignoring_case(seq!['v', 'i', 'z', '.'], word)
            ||| eq_ignoring_case(seq!['v', 's', '.'], word)
        },
{
    let l = abbreviations();
    assert(l.len() == 6);
    assert(l[0] == seq!['a', 'p', 'p', 'r', 'o', 'x', '.']);
    assert(l[1] == seq!['c', 'f', '.']);
    assert(l[2] == seq!['f', 'i', 'g', '.']);
    assert(l[3] == seq!['r', 'e', 's', 'p', '.']);
    assert(l[4] == seq!['v', 'i', 'z', '.']);
    assert(l[5] == seq!['v', 's', '.']);
    if listed_abbreviation(word) {
        let i = choose|i: int| 0 <= i < l.len() && eq_ignoring_case(l[i], word);
        assert(0 <= i < 6);
    }
}

fn equal_ignoring_case(a: &[char], from: usize, to: usize, b: &[char]) -> (r: bool)
    requires
        from <= to <= a@.len(),
    ensures
        r == eq_ignoring_case(b@, a@.subrange(from as int, to as int)),
{
    if to - from != b.len() {
        return false;
    }
    let mut k: usize = 0;
    while k < b.len()
        invariant
            to - from == b@.len(),
            from <= to <= a@.len(),
            k <= b@.len(),
            forall|j: int| 0 <= j < k ==> same_ignoring_case(b@[j], a@[from + j]),
        decreases b@.len() - k,
    {
        let x = b[k];
        let y = a[from + k];
        let same = x == y || ('A' <= x && x <= 'Z' && (x as u32) + 32 == (y as u32)) || ('A' <= y
            && y <= 'Z' && (y as u32) + 32 == (x as u32));
        if !same {
            assert(!same_ignoring_case(b@[k as int], a@.subrange(from as int, to as int)[k as int]));
            return false;
        }
        k += 1;
    }
    true
}

fn is_listed_abbreviation(s: &[char], from: usize, to: usize) -> (r: bool)
    requires
        from <= to <= s@.len(),
    ensures
        r == listed_abbreviation(s@.subrange(from as int, to as int)),
{
    let list: Vec<Vec<char>> = vec![
        vec!['a', 'p', 'p', 'r', 'o', 'x', '.'],
        vec!['c', 'f', '.'],
        vec!['f', 'i', 'g', '.'],
        vec!['r', 'e', 's', 'p', '.'],
        vec!['v', 'i', 'z', '.'],
        vec!['v', 's', '.'],
    ];
    assert(list@.len() == abbreviations().len());
    assert(forall|i: int| 0 <= i < list@.len() ==> list@[i]@ == abbreviations()[i]) by {
        assert(list@[0]@ =~= abbreviations()[0]);
        assert(list@[1]@ =~= abbreviations()[1]);
        assert(list@[2]@ =~= abbreviations()[2]);
        assert(list@[3]@ =~= abbreviations()[3]);
        assert(list@[4]@ =~= abbreviations()[4]);
        assert(list@[5]@ =~= abbreviations()[5]);
    }
    let mut i: usize = 0;
    while i < list.len()
        invariant
            from <= to <= s@.len(),
            i <= list@.len(),
            list@.len() == abbreviations().len(),
            forall|j: int| 0 <= j < list@.len() ==> list@[j]@ == abbreviations()[j],
            forall|j: int|
                0 <= j < i ==> !eq_ignoring_case(
                    abbreviations()[j],
                    s@.subrange(from as int, to as int),
                ),
        decreases list@.len() - i,
    {
        if equal_ignoring_case(s, from, to, list[i].as_slice()) {
            return true;
        }
        i += 1;
    }
    false
}

/// Whether the word is an abbreviation such as `e.g.` or `a.k.a.`
///
/// Only letters and periods qualify, so a version number such as `1.97.0.`
/// still ends a sentence.
pub open spec fn abbreviation(word: Seq<char>) -> bool {
    &&& word.len() >= 1
    &&& word.last() == '.'
    &&& exists|k: int| 0 <= k < word.len() - 1 && word[k] == '.'
    &&& forall|k: int| 0 <= k < word.len() - 1 ==> is_ascii_letter(word[k]) || word[k] == '.'
}

fn abbreviation_in(s: &[char], from: usize, to: usize) -> (r: bool)
    requires
        from <= to <= s@.len(),
    ensures
        r == abbreviation(s@.subrange(from as int, to as int)),
{
    let ghost w = s@.subrange(from as int, to as int);
    if to == from || s[to - 1] != '.' {
        return false;
    }
    let mut has_period = false;
    let mut k = from;
    while k < to - 1
        invariant
            from <= k <= to - 1,
            to <= s@.len(),
            w == s@.subrange(from as int, to as int),
            has_period <==> exists|j: int| from <= j < k && s@[j] == '.',
            forall|j: int| from <= j < k ==> is_ascii_letter(s@[j]) || s@[j] == '.',
        decreases to - 1 - k,
    {
        let c = s[k];
        if !(is_ascii_alphabetic(c) || c == '.') {
            assert(!(is_ascii_letter(w[k - from]) || w[k - from] == '.'));
            return false;
        }
        if c == '.' {
            has_period = true;
        }
        k += 1;
    }
    if has_period {
        let ghost j = choose|j: int| from <= j < k && s@[j] == '.';
        assert(w[j - from] == '.');
    } else {
        assert forall|j: int| 0 <= j < w.len() - 1 implies w[j] != '.' by {
            assert(w[j] == s@[from + j]);
        }
    }
    has_period
}

/// Returns whether the word is an abbreviation such as `e.g.` or `a.k.a.`
pub fn is_abbreviation(word: &str) -> (r: bool)
    ensures
        r == abbreviation(word@),
{
    let s = chars_of(word);
    let n = s.len();
    assert(s@.subrange(0, n as int) =~= s@);
    abbreviation_in(s.as_slice(), 0, n)
}

/// The words counted in `s[i..to]`, given whether position `i` sits inside
/// a word and whether that word holds a letter or a digit so far
///
/// A word is a maximal run of characters that are not whitespace, and it
/// counts only when one of its characters is alphanumeric.
pub open spec fn words_from(s: Seq<char>, i: int, to: int, in_word: bool, alnum: bool) -> nat
    decreases to - i,
{
    if i >= to {
        if in_word && alnum {
            1
        } else {
            0
        }
    } else if is_ws(s[i]) {
        (if in_word && alnum {
            1nat
        } else {
            0nat
        }) + words_from(s, i + 1, to, false, false)
    } else {
        words_from(s, i + 1, to, true, alnum || alphanumeric(s[i]))
    }
}

/// The number of words in `s`
pub open spec fn word_count(s: Seq<char>) -> nat {
    words_from(s, 0, s.len() as int, false, false)
}

fn count_words_in(s: &[char], from: usize, to: usize) -> (r: usize)
    requires
        from <= to <= s@.len(),
    ensures
        r == words_from(s@, from as int, to as int, false, false),
{
    let mut count: usize = 0;
    let mut in_word = false;
    let mut alnum = false;
    let mut i = from;
    while i < to
        invariant
            from <= i <= to <= s@.len(),
            count + (if in_word {
                1int
            } else {
                0int
            }) <= i - from,
            count + words_from(s@, i as int, to as int, in_word, alnum) == words_from(
                s@,
                from as int,
                to as int,
                false,
                false,
            ),
        decreases to - i,
    {
        let c = s[i];
        if is_whitespace(c) {
            if in_word && alnum {
                count += 1;
            }
            in_word = false;
            alnum = false;
        } else {
            let a = char_is_alphanumeric(c);
            in_word = true;
            alnum = alnum || a;
        }
        i += 1;
    }
    if in_word && alnum {
        count += 1;
    }
    count
}

/// Counts the words of one sentence
///
/// An inline code span counts as one word, because a reader takes
/// `Option<T>` or `crates/whisker-rust` as a single name. Punctuation on its
/// own is not a word.
pub fn count_words(text: &str) -> (r: usize)
    ensures
        r == word_count(text@),
{
    let s = chars_of(text);
    count_words_in(s.as_slice(), 0, s.len())
}

/// Whether a character can end a sentence
pub open spec fn is_terminator(c: char) -> bool {
    c == '.' || c == '!' || c == '?'
}

/// Whether a character may sit between a sentence terminator and the
/// whitespace after it
pub open spec fn is_closer(c: char) -> bool {
    c == '.' || c == '!' || c == '?' || c == ')' || c == ']' || c == '"' || c == '\'' || c == '*'
        || c == '_'
}

/// The position after the run of closers that starts at `j`
pub open spec fn closers_end(s: Seq<char>, j: int) -> int
    decreases s.len() - j,
{
    if 0 <= j < s.len() && is_closer(s[j]) {
        closers_end(s, j + 1)
    } else {
        j
    }
}

pub proof fn lemma_closers_end(s: Seq<char>, j: int)
    requires
        0 <= j <= s.len(),
    ensures
        j <= closers_end(s, j) <= s.len(),
    decreases s.len() - j,
{
    if j < s.len() && is_closer(s[j]) {
        lemma_closers_end(s, j + 1);
    }
}

/// The position of the last whitespace character in `s[lo..hi]`, or `-1`
pub open spec fn last_ws_in(s: Seq<char>, lo: int, hi: int) -> int
    decreases hi - lo,
{
    if hi <= lo {
        -1
    } else if is_ws(s[hi - 1]) {
        hi - 1
    } else {
        last_ws_in(s, lo, hi - 1)
    }
}

pub proof fn lemma_last_ws_in(s: Seq<char>, lo: int, hi: int)
    requires
        0 <= lo <= hi <= s.len(),
    ensures
        last_ws_in(s, lo, hi) == -1 || (lo <= last_ws_in(s, lo, hi) < hi && is_ws(
            s[last_ws_in(s, lo, hi)],
        )),
    decreases hi - lo,
{
    if lo < hi && !is_ws(s[hi - 1]) {
        lemma_last_ws_in(s, lo, hi - 1);
    }
}

/// Whether the terminator at `at` ends the sentence that began at `start`
///
/// The word before a period decides. A `!` or a `?` also needs the word
/// after it, because a macro name ends in `!` and prose writes a bare `?`.
/// The word begins one byte after the last whitespace before `at`; when that
/// whitespace takes more than one byte, the word would begin inside it, and
/// the answer is [`None`].
pub open spec fn ends_at(s: Seq<char>, start: int, at: int, end: int) -> Option<bool> {
    let w = last_ws_in(s, start, at);
    if w >= 0 && (s[w] as u32) >= 128 {
        None
    } else {
        let word_start = if w < 0 {
            start
        } else {
            w + 1
        };
        let word = s.subrange(word_start, at + 1);
        if listed_abbreviation(word) || abbreviation(word) {
            Some(false)
        } else if s[at] == '.' {
            Some(true)
        } else {
            let k = skip_ws(s, end);
            if k >= s.len() {
                Some(true)
            } else {
                Some(!lowercase(s[k]))
            }
        }
    }
}

/// Decides whether the terminator at `at` ends a sentence
///
/// Positions count characters of `s`. The result is [`None`] where the word
/// before the terminator would start inside a multi-byte whitespace
/// character.
pub fn ends_sentence(s: &[char], start: usize, at: usize, end: usize) -> (r: Option<bool>)
    requires
        start <= at < end <= s@.len(),
    ensures
        r == ends_at(s@, start as int, at as int, end as int),
{
    let mut k = at;
    while k > start && !is_whitespace(s[k - 1])
        invariant
            start <= k <= at < s@.len(),
            last_ws_in(s@, start as int, k as int) == last_ws_in(s@, start as int, at as int),
        decreases k - start,
    {
        k -= 1;
    }
    proof {
        lemma_last_ws_in(s@, start as int, at as int);
    }
    if k > start && (s[k - 1] as u32) >= 128 {
        return None;
    }
    let word_start = k;
    if is_listed_abbreviation(s, word_start, at + 1) || abbreviation_in(s, word_start, at + 1) {
        return Some(false);
    }
    if s[at] == '.' {
        return Some(true);
    }
    let next = skip_whitespace(s, end);
    if next >= s.len() {
        Some(true)
    } else {
        Some(!char_is_lowercase(s[next]))
    }
}

/// The sentence ranges of `s` from `index` on, given that the current
/// sentence began at `start`, or [`None`] where the decision has no answer
pub open spec fn split_from(s: Seq<char>, start: int, index: int) -> Option<
    Seq<(usize, usize)>,
>
    decreases s.len() - index,
{
    if index < 0 {
        None
    } else if index >= s.len() {
        if start < s.len() {
            Some(seq![(start as usize, s.len() as usize)])
        } else {
            Some(Seq::empty())
        }
    } else if !is_terminator(s[index]) {
        split_from(s, start, index + 1)
    } else {
        let end = closers_end(s, index + 1);
        proof {
            lemma_closers_end(s, index + 1);
        }
        if end < s.len() && !is_ascii_ws(s[end]) {
            split_from(s, start, end)
        } else {
            match ends_at(s, start, index, end) {
                None => None,
                Some(false) => split_from(s, start, end),
                Some(true) => {
                    let next = skip_ws(s, end);
                    proof {
                        lemma_skip_ws_bounds(s, end);
                    }
                    match split_from(s, next, next) {
                        None => None,
                        Some(rest) => Some(seq![(start as usize, end as usize)] + rest),
                    }
                },
            }
        }
    }
}

/// `head` followed by the ranges in `tail`, when there are any
pub open spec fn prepend_ranges(head: Seq<(usize, usize)>, tail: Option<Seq<(usize, usize)>>) -> Option<Seq<(usize, usize)>> {
    match tail {
        None => None,
        Some(rest) => Some(head + rest),
    }
}

/// Splits masked prose into sentence ranges, counted in characters
pub fn split_chars(s: &[char]) -> (r: Option<Vec<(usize, usize)>>)
    ensures
        r matches Some(v) ==> split_from(s@, 0, 0) == Some(v@),
        r is None ==> split_from(s@, 0, 0) is None,
{
    let n = s.len();
    let mut ranges: Vec<(usize, usize)> = Vec::new();
    let mut start: usize = 0;
    let mut index: usize = 0;
    while index < n
        invariant
            n == s@.len(),
            start <= index <= n,
            prepend_ranges(ranges@, split_from(s@, start as int, index as int)) == split_from(
                s@,
                0,
                0,
            ),
        decreases n - index,
    {
        if !(s[index] == '.' || s[index] == '!' || s[index] == '?') {
            index += 1;
            continue;
        }
        let mut end = index + 1;
        while end < n && (s[end] == '.' || s[end] == '!' || s[end] == '?' || s[end] == ')' || s[end]
            == ']' || s[end] == '"' || s[end] == '\'' || s[end] == '*' || s[end] == '_')
            invariant
                n == s@.len(),
                index < end <= n,
                closers_end(s@, end as int) == closers_end(s@, index + 1),
            decreases n - end,
        {
            end += 1;
        }
        if end < n && !is_ascii_whitespace(s[end]) {
            index = end;
            continue;
        }
        match ends_sentence(s, start, index, end) {
            None => {
                return None;
            },
            Some(false) => {
                index = end;
            },
            Some(true) => {
                let ghost before = ranges@;
                ranges.push((start, end));
                let next = skip_whitespace(s, end);
                assert(before + seq![(start, end)] =~= ranges@);
                assert(prepend_ranges(before, split_from(s@, start as int, index as int))
                    == prepend_ranges(ranges@, split_from(s@, next as int, next as int))) by {
                    match split_from(s@, next as int, next as int) {
                        None => {},
                        Some(rest) => {
                            assert(before + (seq![(start, end)] + rest) =~= ranges@ + rest);
                        },
                    }
                }
                start = next;
                index = next;
            },
        }
    }
    if start < n {
        let ghost before = ranges@;
        ranges.push((start, n));
        assert(before + seq![(start, n)] =~= ranges@);
    } else {
        assert(ranges@ + Seq::<(usize, usize)>::empty() =~= ranges@);
    }
    Some(ranges)
}

/// The prose of one paragraph and the segments it was built from, once the
/// text from `from` on of a line whose character `from` sits at byte
/// `offset` of the file is appended
///
/// A segment pairs the position in the paragraph where a line's text starts
/// with the byte offset of that text in the file. The line is trimmed, and a
/// space separates it from the text before it.
pub open spec fn pushed(
    text: Seq<char>,
    segs: Seq<(usize, usize)>,
    line: Seq<char>,
    from: int,
    offset: int,
) -> Option<(Seq<char>, Seq<(usize, usize)>)> {
    let a = skip_ws(line, from);
    let b = trim_back(line, a, line.len() as int);
    if a >= b {
        Some((text, segs))
    } else {
        let file = offset + utf8_size(line.subrange(from, a));
        if file > usize::MAX {
            None
        } else {
            let joined = if text.len() > 0 {
                text.push(' ')
            } else {
                text
            };
            Some((joined + line.subrange(a, b), segs.push((joined.len() as usize, file as usize))))
        }
    }
}

/// The index of the last segment that starts at or before `o`, among the
/// first `n`, or `-1`
pub open spec fn last_le(segs: Seq<(usize, usize)>, o: int, n: int) -> int
    decreases n,
{
    if n <= 0 {
        -1
    } else if segs[n - 1].0 <= o {
        n - 1
    } else {
        last_le(segs, o, n - 1)
    }
}

pub proof fn lemma_last_le(segs: Seq<(usize, usize)>, o: int, n: int)
    requires
        0 <= n <= segs.len(),
    ensures
        -1 <= last_le(segs, o, n) < n,
        last_le(segs, o, n) >= 0 ==> segs[last_le(segs, o, n)].0 <= o,
    decreases n,
{
    if n > 0 && segs[n - 1].0 > o {
        lemma_last_le(segs, o, n - 1);
    }
}

/// The file offset that position `o` of the paragraph came from
pub open spec fn prose_offset(text: Seq<char>, segs: Seq<(usize, usize)>, o: int) -> Option<
    usize,
> {
    let k = last_le(segs, o, segs.len() as int);
    if k < 0 {
        None
    } else {
        let v = segs[k].1 + utf8_size(text.subrange(segs[k].0 as int, o));
        if v <= usize::MAX {
            Some(v as usize)
        } else {
            None
        }
    }
}

/// The sentence that the range `r` of the masked paragraph covers
pub closed spec fn sentence_for(
    text: Seq<char>,
    segs: Seq<(usize, usize)>,
    masked: Seq<char>,
    r: (usize, usize),
) -> Option<Sentence> {
    match (prose_offset(text, segs, r.0 as int), prose_offset(text, segs, r.1 as int)) {
        (Some(a), Some(b)) => Some(
            Sentence {
                words: words_from(masked, r.0 as int, r.1 as int, false, false) as usize,
                start: a,
                end: b,
            },
        ),
        _ => None,
    }
}

/// The sentence a range covers: it starts and ends at the file offsets of
/// the range's two ends and has the words the masked text holds there; there
/// is none when either end has no file offset
pub proof fn lemma_sentence_for(
    text: Seq<char>,
    segs: Seq<(usize, usize)>,
    masked: Seq<char>,
    r: (usize, usize),
)
    ensures
        match sentence_for(text, segs, masked, r) {
            Some(x) => {
                &&& prose_offset(text, segs, r.0 as int) == Some(x.spec_start())
                &&& prose_offset(text, segs, r.1 as int) == Some(x.spec_end())
                &&& x.spec_words() == words_from(masked, r.0 as int, r.1 as int, false, false) as usize
            },
            None => prose_offset(text, segs, r.0 as int) is None || prose_offset(text, segs, r.1 as int) is None,
        },
{
}

/// The sentences of the first `n` ranges
pub open spec fn sentences_of(
    text: Seq<char>,
    segs: Seq<(usize, usize)>,
    masked: Seq<char>,
    ranges: Seq<(usize, usize)>,
    n: int,
) -> Option<Seq<Sentence>>
    decreases n,
{
    if n <= 0 {
        Some(Seq::empty())
    } else {
        match (
            sentences_of(text, segs, masked, ranges, n - 1),
            sentence_for(text, segs, masked, ranges[n - 1]),
        ) {
            (Some(a), Some(b)) => Some(a.push(b)),
            _ => None,
        }
    }
}

/// The sentences of one paragraph
pub open spec fn flushed(text: Seq<char>, segs: Seq<(usize, usize)>) -> Option<Seq<Sentence>> {
    let masked = mask_from(text, 0, false);
    match split_from(masked, 0, 0) {
        None => None,
        Some(ranges) => sentences_of(text, segs, masked, ranges, ranges.len() as int),
    }
}

/// The prose of one paragraph, reassembled from the lines it spans
///
/// Each line keeps the file offset it came from, so a sentence can point
/// back into the file.
#[derive(Clone, Debug)]
pub struct Prose {
    text: Vec<char>,
    segments: Vec<(usize, usize)>,
}

impl Prose {
    /// The text of the paragraph
    pub closed spec fn spec_text(&self) -> Seq<char> {
        self.text@
    }

    /// The segments of the paragraph
    pub closed spec fn spec_segments(&self) -> Seq<(usize, usize)> {
        self.segments@
    }

    /// Creates an empty paragraph
    pub fn new() -> (r: Self)
        ensures
            r.spec_text() == Seq::<char>::empty(),
            r.spec_segments() == Seq::<(usize, usize)>::empty(),
    {
        Prose { text: Vec::new(), segments: Vec::new() }
    }

    /// Appends the text of `line` from `from` on, which starts at `offset`
    /// in the file
    ///
    /// Returns `false`, and leaves the paragraph alone, when the file offset
    /// of the text does not fit in a `usize`.
    pub fn push(&mut self, line: &[char], from: usize, offset: usize) -> (ok: bool)
        requires
            from <= line@.len(),
        ensures
            pushed(old(self).spec_text(), old(self).spec_segments(), line@, from as int, offset as int) matches Some(p) ==> ok && final(self).spec_text() == p.0 && final(self).spec_segments() == p.1,
            pushed(old(self).spec_text(), old(self).spec_segments(), line@, from as int, offset as int) is None ==> !ok,
            !ok ==> final(self).spec_text() == old(self).spec_text() && final(self).spec_segments() == old(self).spec_segments(),
    {
        let n = line.len();
        let a = skip_whitespace(line, from);
        let b = trim_back_from(line, a, n);
        if a >= b {
            return true;
        }
        let indent = match byte_len_checked(line, from, a) {
            Some(v) => v,
            None => {
                return false;
            },
        };
        let file = match offset.checked_add(indent) {
            Some(v) => v,
            None => {
                return false;
            },
        };
        if self.text.len() > 0 {
            self.text.push(' ');
        }
        let position = self.text.len();
        self.segments.push((position, file));
        let ghost joined = self.text@;
        push_range(&mut self.text, line, a, b);
        true
    }

    /// Maps a position in the paragraph to the file offset it came from
    pub fn offset(&self, o: usize) -> (r: Option<usize>)
        requires
            o <= self.spec_text().len(),
            forall|k: int| 0 <= k < self.spec_segments().len() ==> #[trigger] self.spec_segments()[k].0 <= self.spec_text().len(),
        ensures
            r == prose_offset(self.spec_text(), self.spec_segments(), o as int),
    {
        let mut n = self.segments.len();
        while n > 0 && self.segments[n - 1].0 > o
            invariant
                n <= self.segments@.len(),
                last_le(self.segments@, o as int, n as int) == last_le(
                    self.segments@,
                    o as int,
                    self.segments@.len() as int,
                ),
            decreases n,
        {
            n -= 1;
        }
        if n == 0 {
            return None;
        }
        let (position, file) = self.segments[n - 1];
        match byte_len_checked(self.text.as_slice(), position, o) {
            None => {
                proof {
                    crate::text::lemma_utf8_size_bounds(self.text@.subrange(position as int, o as int));
                }
                None
            },
            Some(bytes) => file.checked_add(bytes),
        }
    }

    /// Appends the sentences of the paragraph to `found` and empties it
    ///
    /// Returns `false` when the paragraph has no answer; `found` may then
    /// hold part of it.
    pub fn flush(&mut self, found: &mut Vec<Sentence>) -> (ok: bool)
        requires
            forall|k: int| 0 <= k < old(self).spec_segments().len() ==> #[trigger] old(self).spec_segments()[k].0 <= old(self).spec_text().len(),
        ensures
            flushed(old(self).spec_text(), old(self).spec_segments()) matches Some(ns) ==> ok && final(found)@ == old(found)@ + ns,
            flushed(old(self).spec_text(), old(self).spec_segments()) is None ==> !ok,
            final(self).spec_text() == Seq::<char>::empty(),
            final(self).spec_segments() == Seq::<(usize, usize)>::empty(),
    {
        let masked = mask_spans(self.text.as_slice(), false);
        proof {
            lemma_mask_len(self.text@, 0);
        }
        let ranges = match split_chars(masked.as_slice()) {
            Some(r) => r,
            None => {
                self.text = Vec::new();
                self.segments = Vec::new();
                return false;
            },
        };
        let masked_len = masked.len();
        proof {
            lemma_split_ranges(masked@, 0, 0);
        }
        let ghost start = found@;
        let mut i: usize = 0;
        while i < ranges.len()
            invariant
                i <= ranges@.len(),
                self.text@ == old(self).spec_text(),
                self.segments@ == old(self).spec_segments(),
                split_from(masked@, 0, 0) == Some(ranges@),
                masked@ == mask_from(self.text@, 0, false),
                masked@.len() == self.text@.len(),
                forall|k: int| 0 <= k < ranges@.len() ==> #[trigger] ranges@[k].0 <= ranges@[k].1 && ranges@[k].1 <= masked@.len(),
                forall|k: int| 0 <= k < self.segments@.len() ==> #[trigger] self.segments@[k].0 <= self.text@.len(),
                sentences_of(self.text@, self.segments@, masked@, ranges@, i as int) matches Some(ss) && found@ == start + ss,
            decreases ranges@.len() - i,
        {
            let (a, b) = ranges[i];
            assert(ranges@[i as int].0 <= ranges@[i as int].1 <= masked@.len());
            let words = count_words_in(masked.as_slice(), a, b);
            let sa = self.offset(a);
            let sb = self.offset(b);
            match (sa, sb) {
                (Some(x), Some(y)) => {
                    found.push(Sentence { words, start: x, end: y });
                    i += 1;
                },
                _ => {
                    proof {
                        lemma_sentences_of_none(
                            self.text@,
                            self.segments@,
                            masked@,
                            ranges@,
                            i as int,
                            ranges@.len() as int,
                        );
                    }
                    self.text = Vec::new();
                    self.segments = Vec::new();
                    return false;
                },
            }
        }
        self.text = Vec::new();
        self.segments = Vec::new();
        true
    }
}

pub proof fn lemma_mask_len(s: Seq<char>, i: int)
    requires
        0 <= i <= s.len(),
    ensures
        mask_from(s, i, false).len() == s.len() - i,
    decreases s.len() - i,
{
    reveal(mask_from);
    if i < s.len() {
        if s[i] != '`' {
            lemma_mask_len(s, i + 1);
        } else {
            let f = 1 + run_len(s, i + 1, '`');
            lemma_run_len(s, i + 1, '`');
            lemma_closing_bt(s, i + f, f);
            match closing_bt(s, i + f, f) {
                None => {
                    lemma_mask_len(s, i + f);
                },
                Some(c) => {
                    lemma_mask_len(s, c + f);
                },
            }
        }
    }
}

proof fn lemma_xs_size(n: nat)
    ensures
        utf8_size(xs(n)) == n,
    decreases n,
{
    if n > 0 {
        lemma_xs_size((n - 1) as nat);
        assert(xs(n) =~= xs((n - 1) as nat).push('x'));
        lemma_utf8_size_push(xs((n - 1) as nat), 'x');
        assert(width('x') == 1);
    }
}

/// Masking byte for byte keeps the byte length of the text from `i` on, so
/// every byte offset into the masked text is an offset into the original
pub proof fn law_mask_keeps_byte_length(s: Seq<char>, i: int)
    requires
        0 <= i <= s.len(),
    ensures
        utf8_size(mask_from(s, i, true)) == utf8_size(s.subrange(i, s.len() as int)),
    decreases s.len() - i,
{
    reveal(mask_from);
    let n = s.len() as int;
    if i == n {
        assert(s.subrange(i, n) =~= Seq::<char>::empty());
        assert(mask_from(s, i, true) =~= Seq::<char>::empty());
    } else if s[i] != '`' {
        law_mask_keeps_byte_length(s, i + 1);
        assert(s.subrange(i, i + 1) =~= seq![s[i]]);
        lemma_utf8_size_split(s, i, i + 1, n);
        crate::text::lemma_encode_utf8_concat(seq![s[i]], mask_from(s, i + 1, true));
    } else {
        let f = 1 + run_len(s, i + 1, '`');
        lemma_run_len(s, i + 1, '`');
        lemma_closing_bt(s, i + f, f);
        match closing_bt(s, i + f, f) {
            None => {
                law_mask_keeps_byte_length(s, i + f);
                lemma_utf8_size_split(s, i, i + f, n);
                crate::text::lemma_encode_utf8_concat(s.subrange(i, i + f), mask_from(s, i + f, true));
            },
            Some(c) => {
                law_mask_keeps_byte_length(s, c + f);
                let hidden = utf8_size(s.subrange(i + f, c));
                lemma_xs_size(hidden);
                lemma_utf8_size_split(s, i, i + f, n);
                lemma_utf8_size_split(s, i + f, c, n);
                lemma_utf8_size_split(s, c, c + f, n);
                let a = s.subrange(i, i + f);
                let b = xs(hidden);
                let d = s.subrange(c, c + f);
                let e = mask_from(s, c + f, true);
                crate::text::lemma_encode_utf8_concat(a, b);
                crate::text::lemma_encode_utf8_concat(a + b, d);
                crate::text::lemma_encode_utf8_concat(a + b + d, e);
            },
        }
    }
}

pub proof fn lemma_split_ranges(s: Seq<char>, start: int, index: int)
    requires
        0 <= start <= index,
        start <= s.len() <= usize::MAX,
    ensures
        split_from(s, start, index) matches Some(v) ==> forall|k: int|
            0 <= k < v.len() ==> start <= #[trigger] v[k].0 <= v[k].1 <= s.len(),
    decreases s.len() - index,
{
    if index < s.len() {
        if !is_terminator(s[index]) {
            lemma_split_ranges(s, start, index + 1);
        } else {
            let end = closers_end(s, index + 1);
            lemma_closers_end(s, index + 1);
            if end < s.len() && !is_ascii_ws(s[end]) {
                lemma_split_ranges(s, start, end);
            } else {
                match ends_at(s, start, index, end) {
                    None => {},
                    Some(false) => {
                        lemma_split_ranges(s, start, end);
                    },
                    Some(true) => {
                        let next = skip_ws(s, end);
                        lemma_skip_ws_bounds(s, end);
                        lemma_split_ranges(s, next, next);
                        match split_from(s, next, next) {
                            None => {},
                            Some(rest) => {
                                let v = seq![(start as usize, end as usize)] + rest;
                                assert(split_from(s, start, index) == Some(v));
                                assert forall|k: int| 0 <= k < v.len() implies start <= #[trigger] v[k].0 <= v[k].1 <= s.len() by {
                                    if k > 0 {
                                        assert(v[k] == rest[k - 1]);
                                    }
                                }
                            },
                        }
                    },
                }
            }
        }
    }
}

pub proof fn lemma_sentences_of_none(
    text: Seq<char>,
    segs: Seq<(usize, usize)>,
    masked: Seq<char>,
    ranges: Seq<(usize, usize)>,
    i: int,
    n: int,
)
    requires
        0 <= i < n <= ranges.len(),
        sentence_for(text, segs, masked, ranges[i]) is None,
    ensures
        sentences_of(text, segs, masked, ranges, n) is None,
    decreases n - i,
{
    if n > i + 1 {
        lemma_sentences_of_none(text, segs, masked, ranges, i, n - 1);
    }
}

/// What the splitter has built after some lines: the sentences found, the
/// open paragraph with its segments, and the fence of the code block it is
/// inside, if any
pub type SplitState = (Seq<Sentence>, Seq<char>, Seq<(usize, usize)>, Option<Fence>);

/// The state once the open paragraph is flushed
pub open spec fn after_flush(
    found: Seq<Sentence>,
    text: Seq<char>,
    segs: Seq<(usize, usize)>,
    fence: Option<Fence>,
) -> Option<SplitState> {
    match flushed(text, segs) {
        None => None,
        Some(ns) => Some((found + ns, Seq::empty(), Seq::empty(), fence)),
    }
}

/// The state after one more line, whose characters are `s` and which starts
/// at byte `off` of the file
///
/// Fenced code blocks, section headings, link definitions, and table rows
/// are not prose, so they end the paragraph and join none. A blank line or a
/// new list item ends the paragraph too.
pub open spec fn line_step(st: Option<SplitState>, s: Seq<char>, off: usize) -> Option<SplitState> {
    match st {
        None => None,
        Some((found, text, segs, fence)) => {
            let t = skip_ws(s, 0);
            match fence {
                Some(opened) => match fence_at(s, t) {
                    None => st,
                    Some(c) => Some(
                        (
                            found,
                            text,
                            segs,
                            if fence_closes(c, opened) {
                                None
                            } else {
                                Some(opened)
                            },
                        ),
                    ),
                },
                None => match fence_at(s, t) {
                    Some(opened) => after_flush(found, text, segs, Some(opened)),
                    None => {
                        if t >= s.len() || heading_at(s, t) || link_definition_at(s, t) || s[t]
                            == '|' {
                            after_flush(found, text, segs, None)
                        } else {
                            let m = list_marker_at(s, t);
                            let mid = if m > 0 {
                                after_flush(found, text, segs, None)
                            } else {
                                Some((found, text, segs, None))
                            };
                            match mid {
                                None => None,
                                Some((f2, t2, s2, _)) => {
                                    let file = off + utf8_size(s.subrange(0, t)) + m;
                                    if file > usize::MAX {
                                        None
                                    } else {
                                        match pushed(t2, s2, s, t + m, file) {
                                            None => None,
                                            Some((t3, s3)) => Some((f2, t3, s3, None)),
                                        }
                                    }
                                }
                            }
                        }
                    },
                },
            }
        },
    }
}

/// The state after the first `n` lines
pub open spec fn run_lines(lines: Seq<DocLine>, n: int) -> Option<SplitState>
    decreases n,
{
    if n <= 0 {
        Some((Seq::empty(), Seq::empty(), Seq::empty(), None))
    } else {
        line_step(
            run_lines(lines, n - 1),
            lines[n - 1].spec_text(),
            lines[n - 1].spec_offset(),
        )
    }
}

/// The sentences of one doc comment, or [`None`] where the split has no
/// answer
pub open spec fn sentences_spec(lines: Seq<DocLine>) -> Option<Seq<Sentence>> {
    match run_lines(lines, lines.len() as int) {
        None => None,
        Some((found, text, segs, _)) => match flushed(text, segs) {
            None => None,
            Some(ns) => Some(found + ns),
        },
    }
}

/// Whether every segment starts inside the text
pub open spec fn segments_inside(text: Seq<char>, segs: Seq<(usize, usize)>) -> bool {
    forall|k: int| 0 <= k < segs.len() ==> #[trigger] segs[k].0 <= text.len()
}

proof fn lemma_pushed_inside(
    text: Seq<char>,
    segs: Seq<(usize, usize)>,
    line: Seq<char>,
    from: int,
    offset: int,
)
    requires
        segments_inside(text, segs),
        0 <= from <= line.len(),
    ensures
        pushed(text, segs, line, from, offset) matches Some(p) ==> (p.0.len() <= usize::MAX
            ==> segments_inside(p.0, p.1)),
{
    let a = skip_ws(line, from);
    lemma_skip_ws_bounds(line, from);
    let b = trim_back(line, a, line.len() as int);
    lemma_trim_back_bounds(line, a, line.len() as int);
    if a < b {
        let file = offset + utf8_size(line.subrange(from, a));
        if file <= usize::MAX {
            let joined = if text.len() > 0 {
                text.push(' ')
            } else {
                text
            };
            let p = pushed(text, segs, line, from, offset).unwrap();
            assert forall|k: int| 0 <= k < p.1.len() implies #[trigger] p.1[k].0 <= p.0.len() by {
                if k < segs.len() {
                    assert(p.1[k] == segs[k]);
                }
            }
        }
    }
}

/// Processes one line, as [`line_step`] describes
fn step(
    line: &DocLine,
    found: &mut Vec<Sentence>,
    prose: &mut Prose,
    fence: &mut Option<Fence>,
) -> (ok: bool)
    requires
        segments_inside(old(prose).spec_text(), old(prose).spec_segments()),
    ensures
        line_step(
            Some((old(found)@, old(prose).spec_text(), old(prose).spec_segments(), *old(fence))),
            line.spec_text(),
            line.spec_offset(),
        ) matches Some(st) ==> ok && st == (
            final(found)@,
            final(prose).spec_text(),
            final(prose).spec_segments(),
            *final(fence),
        ),
        line_step(
            Some((old(found)@, old(prose).spec_text(), old(prose).spec_segments(), *old(fence))),
            line.spec_text(),
            line.spec_offset(),
        ) is None ==> !ok,
        segments_inside(final(prose).spec_text(), final(prose).spec_segments()),
{
    let text = line.text();
    let s = crate::text::text_chars(text);
    let n = s.len();
    let t = skip_whitespace(s.as_slice(), 0);
    let candidate = fence_in(s.as_slice(), t);
    match *fence {
        Some(opened) => {
            match candidate {
                None => {},
                Some(c) => {
                    if c.closes(opened) {
                        *fence = None;
                    }
                },
            }
            return true;
        },
        None => {},
    }
    if let Some(opened) = candidate {
        let ok = prose.flush(found);
        *fence = Some(opened);
        return ok;
    }
    if t >= n || heading_in(s.as_slice(), t) || link_definition_in(s.as_slice(), t) || s[t] == '|' {
        return prose.flush(found);
    }
    let m = list_marker_in(s.as_slice(), t);
    if m > 0 {
        if !prose.flush(found) {
            return false;
        }
    }
    let indent = match byte_len_checked(s.as_slice(), 0, t) {
        Some(v) => v,
        None => {
            proof {
                assert(s@.subrange(0, n as int) =~= s@);
                lemma_utf8_size_mono(s@, 0, t as int, n as int);
            }
            return false;
        },
    };
    let file = match line.offset().checked_add(indent) {
        Some(v) => match v.checked_add(m) {
            Some(w) => w,
            None => {
                return false;
            },
        },
        None => {
            return false;
        },
    };
    let ghost before_text = prose.spec_text();
    let ghost before_segs = prose.spec_segments();
    proof {
        lemma_pushed_inside(before_text, before_segs, s@, (t + m) as int, file as int);
    }
    let ok = prose.push(s.as_slice(), t + m, file);
    let _ = prose.text.len();
    ok
}

/// Splits the prose of one doc comment into sentences, or returns [`None`]
/// where the split has no answer
///
/// The split has no answer when the word before a terminator would start
/// inside a multi-byte whitespace character, or when a file offset does not
/// fit in a `usize`.
pub fn try_sentences(lines: &[DocLine<'_>]) -> (r: Option<Vec<Sentence>>)
    ensures
        r matches Some(v) ==> sentences_spec(lines@) == Some(v@),
        r is None ==> sentences_spec(lines@) is None,
{
    let mut found: Vec<Sentence> = Vec::new();
    let mut prose = Prose::new();
    let mut fence: Option<Fence> = None;
    let mut i: usize = 0;
    while i < lines.len()
        invariant
            i <= lines@.len(),
            run_lines(lines@, i as int) == Some(
                (found@, prose.spec_text(), prose.spec_segments(), fence),
            ),
            segments_inside(prose.spec_text(), prose.spec_segments()),
        decreases lines@.len() - i,
    {
        if !step(&lines[i], &mut found, &mut prose, &mut fence) {
            proof {
                lemma_run_lines_none(lines@, (i + 1) as int, lines@.len() as int);
            }
            return None;
        }
        i += 1;
    }
    if !prose.flush(&mut found) {
        return None;
    }
    Some(found)
}

proof fn lemma_run_lines_none(lines: Seq<DocLine>, i: int, n: int)
    requires
        0 <= i <= n,
        run_lines(lines, i) is None,
    ensures
        run_lines(lines, n) is None,
    decreases n - i,
{
    if n > i {
        lemma_run_lines_none(lines, i, n - 1);
    }
}

/// Splits the prose of one doc comment into sentences
///
/// Fenced code blocks, section headings, link definitions, and table rows
/// are not prose, so no sentence contains them. A blank line or a new list
/// item ends the current sentence, because Markdown reads them as a break
/// even without a period.
pub fn sentences(lines: &[DocLine<'_>]) -> (r: Vec<Sentence>)
    requires
        sentences_spec(lines@) is Some,
    ensures
        sentences_spec(lines@) == Some(r@),
{
    match try_sentences(lines) {
        Some(v) => v,
        None => Vec::new(),
    }
}

/// The ranges of `ranges`, which count characters of `t`, as byte offsets
pub open spec fn byte_ranges(t: Seq<char>, ranges: Seq<(usize, usize)>) -> Seq<(usize, usize)> {
    ranges.map_values(
        |p: (usize, usize)|
            (
                utf8_size(t.subrange(0, p.0 as int)) as usize,
                utf8_size(t.subrange(0, p.1 as int)) as usize,
            ),
    )
}

/// Splits masked prose into sentence ranges, as byte offsets into `text`
pub fn split(text: &str) -> (r: Vec<(usize, usize)>)
    requires
        split_from(text@, 0, 0) is Some,
    ensures
        r@ == byte_ranges(text@, split_from(text@, 0, 0).unwrap()),
{
    let s = crate::text::text_chars(text);
    let n = s.len();
    let ranges = match split_chars(s.as_slice()) {
        Some(v) => v,
        None => Vec::new(),
    };
    proof {
        lemma_split_ranges(s@, 0, 0);
        assert(split_from(s@, 0, 0) == Some(ranges@));
        let v = split_from(s@, 0, 0).unwrap();
        assert forall|k: int| 0 <= k < ranges@.len() implies 0 <= #[trigger] ranges@[k].0 <= ranges@[k].1 <= s@.len() by {
            assert(v[k] == ranges@[k]);
            assert(0 <= v[k].0 <= v[k].1 <= s@.len());
        }
    }
    let mut out: Vec<(usize, usize)> = Vec::new();
    let mut i: usize = 0;
    while i < ranges.len()
        invariant
            s@ == text@,
            n == s@.len(),
            utf8_size(s@) <= usize::MAX,
            split_from(s@, 0, 0) == Some(ranges@),
            forall|k: int| 0 <= k < ranges@.len() ==> 0 <= #[trigger] ranges@[k].0 <= ranges@[k].1 <= s@.len(),
            i <= ranges@.len(),
            out@ == byte_ranges(s@, ranges@).take(i as int),
        decreases ranges@.len() - i,
    {
        let (a, b) = ranges[i];
        proof {
            assert(s@.subrange(0, n as int) =~= s@);
            lemma_utf8_size_mono(s@, 0, a as int, n as int);
            lemma_utf8_size_mono(s@, 0, b as int, n as int);
        }
        let x = byte_len(s.as_slice(), 0, a);
        let y = byte_len(s.as_slice(), 0, b);
        out.push((x, y));
        i += 1;
        assert(out@ =~= byte_ranges(s@, ranges@).take(i as int));
    }
    assert(byte_ranges(s@, ranges@).take(i as int) =~= byte_ranges(s@, ranges@));
    out
}


/// The state after the first `n` lines, each given as its text and its
/// file offset
pub open spec fn run_line_views(ls: Seq<(Seq<char>, usize)>, n: int) -> Option<SplitState>
    decreases n,
{
    if n <= 0 {
        Some((Seq::empty(), Seq::empty(), Seq::empty(), None))
    } else {
        line_step(run_line_views(ls, n - 1), ls[n - 1].0, ls[n - 1].1)
    }
}

/// The sentences of one doc comment whose lines are given as text and file
/// offset, or [`None`] where the split has no answer
pub open spec fn sentences_of_lines(ls: Seq<(Seq<char>, usize)>) -> Option<Seq<Sentence>> {
    match run_line_views(ls, ls.len() as int) {
        None => None,
        Some((found, text, segs, _)) => match flushed(text, segs) {
            None => None,
            Some(ns) => Some(found + ns),
        },
    }
}

/// The text and file offset of each line
pub open spec fn doc_line_views(lines: Seq<DocLine>) -> Seq<(Seq<char>, usize)> {
    lines.map_values(|l: DocLine| (l.spec_text(), l.spec_offset()))
}

proof fn lemma_run_line_views(lines: Seq<DocLine>, n: int)
    requires
        0 <= n <= lines.len(),
    ensures
        run_lines(lines, n) == run_line_views(doc_line_views(lines), n),
    decreases n,
{
    if n > 0 {
        lemma_run_line_views(lines, n - 1);
    }
}

/// Splitting lines depends only on their text and file offsets
pub proof fn lemma_sentences_of(lines: Seq<DocLine>)
    ensures
        sentences_spec(lines) == sentences_of_lines(doc_line_views(lines)),
{
    lemma_run_line_views(lines, lines.len() as int);
}
} // verus!
