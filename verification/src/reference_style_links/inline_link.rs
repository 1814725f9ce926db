//! Finding inline Markdown links in the text of a doc comment
//!
//! The search follows CommonMark closely, so text that only looks like a
//! link stays unflagged. It skips fenced and indented code blocks, code
//! spans, and bracket runs that a backslash escapes.
use vstd::prelude::*;
use vstd::utf8::*;

use crate::long_doc_sentence::sentence::{count_run, lemma_run_len, run_len};
use crate::no_em_dash_aside::masking::ascii_ws;
use crate::text::{
    all_whitespace, all_ws, byte_len, chars_of, find_char, find_from, lemma_find_from,
    lemma_utf8_size_mono, lemma_utf8_size_split, text_chars, utf8_size,
};

verus! {

broadcast use vstd::seq_lib::group_seq_properties;

/// The two inline link forms Markdown allows
///
/// The rule keeps them apart so the advice names the form the author wrote.
#[derive(Copy, Clone, Eq, PartialEq, Debug, Structural)]
pub enum LinkKind {
    /// An image link, written `![alt](url)`
    Image,
    /// A text link, written `[text](url)`
    Text,
}

/// The advice for each link form
pub open spec fn kind_message(k: LinkKind) -> Seq<char> {
    match k {
        LinkKind::Image => "replace this inline image link with a reference-style image link"@,
        LinkKind::Text => "replace this inline link with a reference-style link"@,
    }
}

impl LinkKind {
    /// Returns the diagnostic message for this form
    pub fn message(self) -> (r: &'static str)
        ensures
            r@ == kind_message(self),
    {
        match self {
            LinkKind::Image => "replace this inline image link with a reference-style image link",
            LinkKind::Text => "replace this inline link with a reference-style link",
        }
    }
}

/// One inline Markdown link inside a doc comment
///
/// The offsets index the joined text of a doc block, not the source file.
#[derive(Copy, Clone, Eq, PartialEq, Debug)]
pub struct InlineLink {
    kind: LinkKind,
    start: usize,
    end: usize,
}

/// A link as plain values: its form and its byte range
pub open spec fn link_view(l: InlineLink) -> (LinkKind, int, int) {
    (l.spec_kind(), l.spec_start() as int, l.spec_end() as int)
}

/// The views of a list of links
pub open spec fn link_views(ls: Seq<InlineLink>) -> Seq<(LinkKind, int, int)> {
    ls.map_values(|l: InlineLink| link_view(l))
}

impl InlineLink {
    /// The form the author wrote
    pub closed spec fn spec_kind(self) -> LinkKind {
        self.kind
    }

    /// The offset of the link's first byte
    pub closed spec fn spec_start(self) -> usize {
        self.start
    }

    /// The offset one past the link's last byte
    pub closed spec fn spec_end(self) -> usize {
        self.end
    }

    /// Returns the form the author wrote
    pub fn kind(self) -> (r: LinkKind)
        ensures
            r == self.spec_kind(),
    {
        self.kind
    }

    /// Returns the offset of the link's first byte
    pub fn start(self) -> (r: usize)
        ensures
            r == self.spec_start(),
    {
        self.start
    }

    /// Returns the offset one past the link's last byte
    pub fn end(self) -> (r: usize)
        ensures
            r == self.spec_end(),
    {
        self.end
    }
}

/// Where the index after an escaped byte at `i` lands, never past `end`
pub open spec fn step2(i: int, end: int) -> int {
    if end - i >= 2 {
        i + 2
    } else {
        end
    }
}

/// The number of backticks that start at `open`, before `end`
pub open spec fn run_spec(b: Seq<u8>, open: int, end: int) -> int
    decreases end - open,
{
    if 0 <= open < end && open < b.len() && b[open] == 96u8 {
        1 + run_spec(b, open + 1, end)
    } else {
        0
    }
}

pub proof fn lemma_run(b: Seq<u8>, open: int, end: int)
    requires
        0 <= open,
    ensures
        0 <= run_spec(b, open, end),
        open < end ==> open + run_spec(b, open, end) <= end,
        open < end && open < b.len() && b[open] == 96u8 ==> run_spec(b, open, end) >= 1,
    decreases end - open,
{
    if 0 <= open < end && open < b.len() && b[open] == 96u8 {
        lemma_run(b, open + 1, end);
    }
}

/// Counts the backticks that start at `open`
pub fn backtick_run(bytes: &[u8], open: usize, end: usize) -> (r: usize)
    requires
        end <= bytes@.len(),
    ensures
        r == run_spec(bytes@, open as int, end as int),
{
    let mut index = open;
    while index < end && bytes[index] == 96u8
        invariant
            open <= index,
            index <= end || index == open,
            end <= bytes@.len(),
            run_spec(bytes@, open as int, end as int) == (index - open) + run_spec(bytes@, index as int, end as int),
        decreases end - index,
    {
        index += 1;
    }
    index - open
}

/// The first byte at or after `open` that is not ASCII whitespace, before
/// `end`
pub open spec fn skip_ws_spec(b: Seq<u8>, open: int, end: int) -> int
    decreases end - open,
{
    if 0 <= open < end && open < b.len() && ascii_ws(b[open]) {
        skip_ws_spec(b, open + 1, end)
    } else {
        open
    }
}

pub proof fn lemma_skip_ws(b: Seq<u8>, open: int, end: int)
    requires
        0 <= open,
    ensures
        open <= skip_ws_spec(b, open, end),
        open < end ==> skip_ws_spec(b, open, end) <= end,
        open >= end ==> skip_ws_spec(b, open, end) == open,
    decreases end - open,
{
    if 0 <= open < end && open < b.len() && ascii_ws(b[open]) {
        lemma_skip_ws(b, open + 1, end);
    }
}

/// Returns the offset of the first byte that is not ASCII whitespace
pub fn skip_whitespace(bytes: &[u8], open: usize, end: usize) -> (r: usize)
    requires
        end <= bytes@.len(),
    ensures
        r == skip_ws_spec(bytes@, open as int, end as int),
{
    let mut index = open;
    while index < end && ascii_whitespace(bytes[index])
        invariant
            open <= index,
            end <= bytes@.len(),
            skip_ws_spec(bytes@, index as int, end as int) == skip_ws_spec(bytes@, open as int, end as int),
        decreases end - index,
    {
        index += 1;
    }
    index
}

fn ascii_whitespace(b: u8) -> (r: bool)
    ensures
        r == ascii_ws(b),
{
    b == 32u8 || b == 9u8 || b == 10u8 || b == 12u8 || b == 13u8
}

/// The end of the first run of exactly `length` backticks at or after `i`
pub open spec fn span_close(b: Seq<u8>, i: int, end: int, length: int) -> Option<int>
    decreases end - i,
{
    if i < 0 || i >= end || i >= b.len() {
        None
    } else if b[i] != 96u8 {
        span_close(b, i + 1, end, length)
    } else {
        let run = run_spec(b, i, end);
        proof {
            lemma_run(b, i, end);
        }
        if run == length {
            Some(i + run)
        } else {
            span_close(b, i + run, end, length)
        }
    }
}

pub proof fn lemma_span_close(b: Seq<u8>, i: int, end: int, length: int)
    requires
        0 <= i,
    ensures
        span_close(b, i, end, length) matches Some(c) ==> i < c <= end,
    decreases end - i,
{
    if 0 <= i < end && i < b.len() {
        lemma_run(b, i, end);
        if b[i] != 96u8 {
            lemma_span_close(b, i + 1, end, length);
        } else if run_spec(b, i, end) != length {
            lemma_span_close(b, i + run_spec(b, i, end), end, length);
        }
    }
}

/// The offset just past the code span that opens at `open`, or just past its
/// backticks when nothing closes them
pub open spec fn code_span_end(b: Seq<u8>, open: int, end: int) -> int {
    let length = run_spec(b, open, end);
    match span_close(b, open + length, end, length) {
        Some(c) => c,
        None => open + length,
    }
}

pub proof fn lemma_code_span_end(b: Seq<u8>, open: int, end: int)
    requires
        0 <= open,
    ensures
        open <= code_span_end(b, open, end),
        open < end ==> code_span_end(b, open, end) <= end,
        open < end && open < b.len() && b[open] == 96u8 ==> open < code_span_end(b, open, end),
{
    lemma_run(b, open, end);
    lemma_span_close(b, open + run_spec(b, open, end), end, run_spec(b, open, end));
}

/// Returns the offset just past a code span
///
/// A backtick run that nothing of the same length closes is literal text in
/// CommonMark, not the opening of a span. The result is then the offset just
/// past those backticks, so one stray backtick cannot hide every link after
/// it.
pub fn skip_code_span(bytes: &[u8], open: usize, end: usize) -> (r: usize)
    requires
        end <= bytes@.len(),
    ensures
        r == code_span_end(bytes@, open as int, end as int),
{
    proof {
        lemma_run(bytes@, open as int, end as int);
    }
    let length = backtick_run(bytes, open, end);
    let mut index = open + length;
    while index < end
        invariant
            end <= bytes@.len(),
            length == run_spec(bytes@, open as int, end as int),
            open + length <= index,
            span_close(bytes@, index as int, end as int, length as int) == span_close(
                bytes@,
                open + length,
                end as int,
                length as int,
            ),
        decreases end - index,
    {
        if bytes[index] != 96u8 {
            index += 1;
            continue;
        }
        proof {
            lemma_run(bytes@, index as int, end as int);
        }
        let run = backtick_run(bytes, index, end);
        if run == length {
            return index + run;
        }
        index += run;
    }
    open + length
}

/// Whether a byte is an ASCII control character
pub open spec fn ascii_control(b: u8) -> bool {
    b < 32u8 || b == 127u8
}

/// The `]` that closes link text, scanning from `i` with `depth` brackets
/// still open
pub open spec fn text_close(b: Seq<u8>, i: int, end: int, depth: int) -> Option<int>
    decreases end - i,
{
    if i < 0 || i >= end || i >= b.len() {
        None
    } else if b[i] == 92u8 {
        text_close(b, step2(i, end), end, depth)
    } else if b[i] == 96u8 {
        proof {
            lemma_code_span_end(b, i, end);
        }
        text_close(b, code_span_end(b, i, end), end, depth)
    } else if b[i] == 91u8 {
        text_close(b, i + 1, end, depth + 1)
    } else if b[i] == 93u8 {
        if depth == 0 {
            Some(i)
        } else {
            text_close(b, i + 1, end, depth - 1)
        }
    } else {
        text_close(b, i + 1, end, depth)
    }
}

/// The end of a destination in angle brackets, scanning from `i`
pub open spec fn angle_close(b: Seq<u8>, i: int, end: int) -> Option<int>
    decreases end - i,
{
    if i < 0 || i >= end || i >= b.len() {
        None
    } else if b[i] == 92u8 {
        angle_close(b, step2(i, end), end)
    } else if b[i] == 10u8 || b[i] == 60u8 {
        None
    } else if b[i] == 62u8 {
        Some(i + 1)
    } else {
        angle_close(b, i + 1, end)
    }
}

/// The end of a bare destination, scanning from `i` with `depth`
/// parentheses still open
pub open spec fn plain_end(b: Seq<u8>, i: int, end: int, depth: int) -> int
    decreases end - i,
{
    if i < 0 || i >= end || i >= b.len() {
        i
    } else if b[i] == 92u8 {
        plain_end(b, step2(i, end), end, depth)
    } else if ascii_ws(b[i]) || ascii_control(b[i]) {
        i
    } else if b[i] == 40u8 {
        plain_end(b, i + 1, end, depth + 1)
    } else if b[i] == 41u8 {
        if depth == 0 {
            i
        } else {
            plain_end(b, i + 1, end, depth - 1)
        }
    } else {
        plain_end(b, i + 1, end, depth)
    }
}

/// The end of a link title that `closer` closes, scanning from `i`
pub open spec fn title_close(b: Seq<u8>, i: int, end: int, closer: u8) -> Option<int>
    decreases end - i,
{
    if i < 0 || i >= end || i >= b.len() {
        None
    } else if b[i] == 92u8 {
        title_close(b, step2(i, end), end, closer)
    } else if b[i] == closer {
        Some(i + 1)
    } else {
        title_close(b, i + 1, end, closer)
    }
}

/// The offset just past the `)` that follows a link title opening at `open`
pub open spec fn title_end_spec(b: Seq<u8>, open: int, end: int) -> Option<int> {
    if open < 0 || open >= end || open >= b.len() {
        None
    } else {
        let c = b[open];
        if c != 34u8 && c != 39u8 && c != 40u8 {
            None
        } else {
            let closer = if c == 40u8 {
                41u8
            } else {
                c
            };
            match title_close(b, open + 1, end, closer) {
                None => None,
                Some(j) => {
                    let k = skip_ws_spec(b, j, end);
                    if k < end && k < b.len() && b[k] == 41u8 {
                        Some(k + 1)
                    } else {
                        None
                    }
                },
            }
        }
    }
}

/// The offset just past the `)` that closes a destination opening at `open`
/// and its optional title
pub open spec fn destination_spec(b: Seq<u8>, open: int, end: int) -> Option<int> {
    let index = skip_ws_spec(b, open, end);
    if index < 0 || index >= end || index >= b.len() {
        None
    } else {
        let after = if b[index] == 60u8 {
            angle_close(b, index + 1, end)
        } else {
            Some(plain_end(b, index, end, 0))
        };
        match after {
            None => None,
            Some(j) => {
                let k = skip_ws_spec(b, j, end);
                if k < end && k < b.len() && b[k] == 41u8 {
                    Some(k + 1)
                } else {
                    title_end_spec(b, k, end)
                }
            },
        }
    }
}

/// The offset just past an inline link whose text opens at `open`
pub open spec fn link_end_spec(b: Seq<u8>, open: int, end: int) -> Option<int> {
    if open < 0 || open >= end {
        None
    } else {
        match text_close(b, open + 1, end, 0) {
            None => None,
            Some(close) => {
                let paren = close + 1;
                if paren >= end || paren >= b.len() || b[paren] != 40u8 {
                    None
                } else {
                    destination_spec(b, paren + 1, end)
                }
            },
        }
    }
}

pub proof fn lemma_text_close(b: Seq<u8>, i: int, end: int, depth: int)
    requires
        0 <= i,
    ensures
        text_close(b, i, end, depth) matches Some(c) ==> i <= c < end,
    decreases end - i,
{
    if 0 <= i < end && i < b.len() {
        if b[i] == 92u8 {
            lemma_text_close(b, step2(i, end), end, depth);
        } else if b[i] == 96u8 {
            lemma_code_span_end(b, i, end);
            lemma_text_close(b, code_span_end(b, i, end), end, depth);
        } else if b[i] == 91u8 {
            lemma_text_close(b, i + 1, end, depth + 1);
        } else if b[i] == 93u8 {
            if depth != 0 {
                lemma_text_close(b, i + 1, end, depth - 1);
            }
        } else {
            lemma_text_close(b, i + 1, end, depth);
        }
    }
}

pub proof fn lemma_angle_close(b: Seq<u8>, i: int, end: int)
    requires
        0 <= i,
    ensures
        angle_close(b, i, end) matches Some(c) ==> i < c <= end,
    decreases end - i,
{
    if 0 <= i < end && i < b.len() {
        if b[i] == 92u8 {
            lemma_angle_close(b, step2(i, end), end);
        } else if !(b[i] == 10u8 || b[i] == 60u8 || b[i] == 62u8) {
            lemma_angle_close(b, i + 1, end);
        }
    }
}

pub proof fn lemma_plain_end(b: Seq<u8>, i: int, end: int, depth: int)
    requires
        0 <= i,
    ensures
        i <= plain_end(b, i, end, depth),
        i <= end ==> plain_end(b, i, end, depth) <= end,
    decreases end - i,
{
    if 0 <= i < end && i < b.len() {
        if b[i] == 92u8 {
            lemma_plain_end(b, step2(i, end), end, depth);
        } else if ascii_ws(b[i]) || ascii_control(b[i]) {
        } else if b[i] == 40u8 {
            lemma_plain_end(b, i + 1, end, depth + 1);
        } else if b[i] == 41u8 {
            if depth != 0 {
                lemma_plain_end(b, i + 1, end, depth - 1);
            }
        } else {
            lemma_plain_end(b, i + 1, end, depth);
        }
    }
}

pub proof fn lemma_title_close(b: Seq<u8>, i: int, end: int, closer: u8)
    requires
        0 <= i,
    ensures
        title_close(b, i, end, closer) matches Some(c) ==> i < c <= end,
    decreases end - i,
{
    if 0 <= i < end && i < b.len() {
        if b[i] == 92u8 {
            lemma_title_close(b, step2(i, end), end, closer);
        } else if b[i] != closer {
            lemma_title_close(b, i + 1, end, closer);
        }
    }
}

pub proof fn lemma_link_end(b: Seq<u8>, open: int, end: int)
    requires
        0 <= open,
    ensures
        link_end_spec(b, open, end) matches Some(l) ==> open < l <= end,
{
    if 0 <= open < end {
        lemma_text_close(b, open + 1, end, 0);
        match text_close(b, open + 1, end, 0) {
            None => {},
            Some(close) => {
                let paren = close + 1;
                if !(paren >= end || paren >= b.len() || b[paren] != 40u8) {
                    let o = paren + 1;
                    lemma_skip_ws(b, o, end);
                    let index = skip_ws_spec(b, o, end);
                    if 0 <= index < end && index < b.len() {
                        lemma_angle_close(b, index + 1, end);
                        lemma_plain_end(b, index, end, 0);
                        let after = if b[index] == 60u8 {
                            angle_close(b, index + 1, end)
                        } else {
                            Some(plain_end(b, index, end, 0))
                        };
                        match after {
                            None => {},
                            Some(j) => {
                                lemma_skip_ws(b, j, end);
                                let k = skip_ws_spec(b, j, end);
                                if 0 <= k < end && k < b.len() {
                                    lemma_title_close(b, k + 1, end, 41u8);
                                    lemma_title_close(b, k + 1, end, b[k]);
                                    match title_close(b, k + 1, end, if b[k] == 40u8 { 41u8 } else { b[k] }) {
                                        None => {},
                                        Some(t) => {
                                            lemma_skip_ws(b, t, end);
                                        },
                                    }
                                }
                            },
                        }
                    }
                }
            },
        }
    }
}

fn escaped_step(i: usize, end: usize) -> (r: usize)
    requires
        i <= end,
    ensures
        r == step2(i as int, end as int),
{
    if end - i >= 2 {
        i + 2
    } else {
        end
    }
}

/// Returns the offset just past the `)` that follows a link title
pub fn title_end(bytes: &[u8], open: usize, end: usize) -> (r: Option<usize>)
    requires
        end <= bytes@.len(),
    ensures
        match r {
            Some(x) => title_end_spec(bytes@, open as int, end as int) == Some(x as int),
            None => title_end_spec(bytes@, open as int, end as int) is None,
        },
{
    if open >= end {
        return None;
    }
    let c = bytes[open];
    if c != 34u8 && c != 39u8 && c != 40u8 {
        return None;
    }
    let closer = if c == 40u8 {
        41u8
    } else {
        c
    };
    let mut index = open + 1;
    loop
        invariant_except_break
            open < index <= end,
            title_close(bytes@, index as int, end as int, closer) == title_close(bytes@, open + 1, end as int, closer),
        invariant
            end <= bytes@.len(),
            open < end,
            c == bytes@[open as int],
            c == 34u8 || c == 39u8 || c == 40u8,
            closer == (if c == 40u8 {
                41u8
            } else {
                c
            }),
        ensures
            open < index <= end,
            title_close(bytes@, open + 1, end as int, closer) == Some(index as int),
        decreases end - index,
    {
        if index >= end {
            return None;
        }
        let byte = bytes[index];
        if byte == 92u8 {
            index = escaped_step(index, end);
        } else if byte == closer {
            index += 1;
            break;
        } else {
            index += 1;
        }
    }
    proof {
        lemma_skip_ws(bytes@, index as int, end as int);
    }
    let index = skip_whitespace(bytes, index, end);
    if index < end && bytes[index] == 41u8 {
        Some(index + 1)
    } else {
        None
    }
}

/// Returns the offset just past the `)` that closes the destination and its
/// optional title
pub fn destination_end(bytes: &[u8], open: usize, end: usize) -> (r: Option<usize>)
    requires
        end <= bytes@.len(),
    ensures
        match r {
            Some(x) => destination_spec(bytes@, open as int, end as int) == Some(x as int),
            None => destination_spec(bytes@, open as int, end as int) is None,
        },
{
    proof {
        lemma_skip_ws(bytes@, open as int, end as int);
    }
    let mut index = skip_whitespace(bytes, open, end);
    if index >= end {
        return None;
    }
    let ghost first = index;
    if bytes[index] == 60u8 {
        index += 1;
        loop
            invariant_except_break
                first < index <= end,
                angle_close(bytes@, index as int, end as int) == angle_close(bytes@, first + 1, end as int),
            invariant
                end <= bytes@.len(),
                first == skip_ws_spec(bytes@, open as int, end as int),
                first < end,
                bytes@[first as int] == 60u8,
            ensures
                first < index <= end,
                angle_close(bytes@, first + 1, end as int) == Some(index as int),
            decreases end - index,
        {
            if index >= end {
                return None;
            }
            let byte = bytes[index];
            if byte == 92u8 {
                index = escaped_step(index, end);
            } else if byte == 10u8 || byte == 60u8 {
                return None;
            } else if byte == 62u8 {
                index += 1;
                break;
            } else {
                index += 1;
            }
        }
    } else {
        let mut depth: usize = 0;
        while index < end
            invariant_except_break
                end <= bytes@.len(),
                first <= index <= end,
                depth <= index,
                plain_end(bytes@, index as int, end as int, depth as int) == plain_end(bytes@, first as int, end as int, 0),
            ensures
                first <= index <= end,
                plain_end(bytes@, first as int, end as int, 0) == index,
            decreases end - index,
        {
            let byte = bytes[index];
            if byte == 92u8 {
                index = escaped_step(index, end);
            } else if ascii_whitespace(byte) || byte < 32u8 || byte == 127u8 {
                break;
            } else if byte == 40u8 {
                depth += 1;
                index += 1;
            } else if byte == 41u8 {
                if depth == 0 {
                    break;
                }
                depth -= 1;
                index += 1;
            } else {
                index += 1;
            }
        }
    }
    proof {
        lemma_skip_ws(bytes@, index as int, end as int);
    }
    let index = skip_whitespace(bytes, index, end);
    if index < end && bytes[index] == 41u8 {
        return Some(index + 1);
    }
    title_end(bytes, index, end)
}

/// Returns the offset just past an inline link that starts at `open`
///
/// `open` is the offset of the `[` that begins the link text. Returns
/// [`None`] for a reference link, for an unclosed bracket, and for a `(`
/// group that is not a well-formed destination.
pub fn link_end(bytes: &[u8], open: usize, end: usize) -> (r: Option<usize>)
    requires
        end <= bytes@.len(),
    ensures
        match r {
            Some(x) => link_end_spec(bytes@, open as int, end as int) == Some(x as int),
            None => link_end_spec(bytes@, open as int, end as int) is None,
        },
{
    if open >= end {
        return None;
    }
    let mut index = open + 1;
    let mut depth: usize = 0;
    let mut close: usize = 0;
    loop
        invariant_except_break
            end <= bytes@.len(),
            open < index <= end,
            depth <= index,
            text_close(bytes@, index as int, end as int, depth as int) == text_close(bytes@, open + 1, end as int, 0),
        ensures
            open < close < end,
            text_close(bytes@, open + 1, end as int, 0) == Some(close as int),
        decreases end - index,
    {
        if index >= end {
            return None;
        }
        let byte = bytes[index];
        if byte == 92u8 {
            index = escaped_step(index, end);
        } else if byte == 96u8 {
            proof {
                lemma_code_span_end(bytes@, index as int, end as int);
            }
            index = skip_code_span(bytes, index, end);
        } else if byte == 91u8 {
            depth += 1;
            index += 1;
        } else if byte == 93u8 {
            if depth == 0 {
                close = index;
                break;
            }
            depth -= 1;
            index += 1;
        } else {
            index += 1;
        }
    }
    let paren = close + 1;
    if paren >= end || bytes[paren] != 40u8 {
        return None;
    }
    destination_end(bytes, paren + 1, end)
}

/// The inline links in `b[i..end]`, each with its form and byte range
pub open spec fn links_from(b: Seq<u8>, i: int, end: int) -> Seq<(LinkKind, int, int)>
    decreases end - i,
{
    if i < 0 || i >= end || i >= b.len() {
        Seq::empty()
    } else if b[i] == 92u8 {
        links_from(b, step2(i, end), end)
    } else if b[i] == 96u8 {
        proof {
            lemma_code_span_end(b, i, end);
        }
        links_from(b, code_span_end(b, i, end), end)
    } else if b[i] == 33u8 && i + 1 < b.len() && b[i + 1] == 91u8 && i + 1 < end {
        proof {
            lemma_link_end(b, i + 1, end);
        }
        match link_end_spec(b, i + 1, end) {
            Some(l) => seq![(LinkKind::Image, i, l)] + links_from(b, l, end),
            None => links_from(b, i + 1, end),
        }
    } else if b[i] == 91u8 {
        proof {
            lemma_link_end(b, i, end);
        }
        match link_end_spec(b, i, end) {
            Some(l) => seq![(LinkKind::Text, i, l)] + links_from(b, l, end),
            None => links_from(b, i + 1, end),
        }
    } else {
        links_from(b, i + 1, end)
    }
}

pub proof fn lemma_links_from(b: Seq<u8>, i: int, end: int)
    requires
        0 <= i,
    ensures
        forall|m: int|
            0 <= m < links_from(b, i, end).len() ==> i <= #[trigger] links_from(b, i, end)[m].1
                < links_from(b, i, end)[m].2 <= end,
    decreases end - i,
{
    if 0 <= i < end && i < b.len() {
        if b[i] == 92u8 {
            lemma_links_from(b, step2(i, end), end);
            assert(links_from(b, i, end) == links_from(b, step2(i, end), end));
        } else if b[i] == 96u8 {
            lemma_code_span_end(b, i, end);
            lemma_links_from(b, code_span_end(b, i, end), end);
            assert(links_from(b, i, end) == links_from(b, code_span_end(b, i, end), end));
        } else if b[i] == 33u8 && i + 1 < b.len() && b[i + 1] == 91u8 && i + 1 < end {
            lemma_link_end(b, i + 1, end);
            match link_end_spec(b, i + 1, end) {
                Some(l) => {
                    lemma_links_from(b, l, end);
                    let rest = links_from(b, l, end);
                    assert forall|m: int| 0 <= m < links_from(b, i, end).len() implies i <= #[trigger] links_from(b, i, end)[m].1 < links_from(b, i, end)[m].2 <= end by {
                        if m > 0 {
                            assert(links_from(b, i, end)[m] == rest[m - 1]);
                        }
                    }
                },
                None => {
                    lemma_links_from(b, i + 1, end);
                    assert(links_from(b, i, end) == links_from(b, i + 1, end));
                },
            }
        } else if b[i] == 91u8 {
            lemma_link_end(b, i, end);
            match link_end_spec(b, i, end) {
                Some(l) => {
                    lemma_links_from(b, l, end);
                    let rest = links_from(b, l, end);
                    assert forall|m: int| 0 <= m < links_from(b, i, end).len() implies i <= #[trigger] links_from(b, i, end)[m].1 < links_from(b, i, end)[m].2 <= end by {
                        if m > 0 {
                            assert(links_from(b, i, end)[m] == rest[m - 1]);
                        }
                    }
                },
                None => {
                    lemma_links_from(b, i + 1, end);
                    assert(links_from(b, i, end) == links_from(b, i + 1, end));
                },
            }
        } else {
            lemma_links_from(b, i + 1, end);
            assert(links_from(b, i, end) == links_from(b, i + 1, end));
        }
    }
}

/// Collects the inline links in one run of prose
pub fn scan(bytes: &[u8], start: usize, end: usize, links: &mut Vec<InlineLink>)
    requires
        end <= bytes@.len(),
    ensures
        link_views(final(links)@) == link_views(old(links)@) + links_from(bytes@, start as int, end as int),
{
    let ghost base = link_views(links@);
    let mut index = start;
    while index < end
        invariant
            end <= bytes@.len(),
            start <= index,
            index < end || index == start || index == end,
            link_views(links@) + links_from(bytes@, index as int, end as int) == base + links_from(
                bytes@,
                start as int,
                end as int,
            ),
        decreases end - index,
    {
        let byte = bytes[index];
        let ghost before = link_views(links@);
        if byte == 92u8 {
            index = escaped_step(index, end);
        } else if byte == 96u8 {
            proof {
                lemma_code_span_end(bytes@, index as int, end as int);
            }
            index = skip_code_span(bytes, index, end);
        } else if byte == 33u8 && index + 1 < bytes.len() && bytes[index + 1] == 91u8 && index + 1 < end {
            proof {
                lemma_link_end(bytes@, index + 1, end as int);
            }
            index = match link_end(bytes, index + 1, end) {
                Some(link) => {
                    let l = InlineLink { kind: LinkKind::Image, start: index, end: link };
                    links.push(l);
                    assert(link_views(links@) =~= before.push(link_view(l)));
                    link
                },
                None => index + 1,
            };
        } else if byte == 91u8 {
            proof {
                lemma_link_end(bytes@, index as int, end as int);
            }
            index = match link_end(bytes, index, end) {
                Some(link) => {
                    let l = InlineLink { kind: LinkKind::Text, start: index, end: link };
                    links.push(l);
                    assert(link_views(links@) =~= before.push(link_view(l)));
                    link
                },
                None => index + 1,
            };
        } else {
            index += 1;
        }
    }
}

/// A run of consecutive lines that hold Markdown prose, as byte offsets
#[derive(Copy, Clone, Eq, PartialEq, Debug)]
pub struct ProseRange {
    /// Offset of the run's first byte
    pub start: usize,
    /// Offset one past the run's last byte
    pub end: usize,
}

/// What a line contributes to the document
#[derive(Copy, Clone, Eq, PartialEq, Debug, Structural)]
pub enum LineRole {
    /// The line holds prose, so the link scanner reads it
    Prose,
    /// The line holds code or nothing, so the link scanner skips it
    Skip,
}

/// The kind of block the block scanner is inside
#[derive(Copy, Clone, Eq, PartialEq, Debug, Structural)]
pub enum BlockState {
    /// Inside a fenced code block opened by `marker` repeated `length` times
    Fenced { marker: u8, length: usize },
    /// Inside a code block that four spaces of indentation introduced
    IndentedCode,
    /// Outside any code block
    Prose,
}

/// Whether a line carries anything but whitespace
#[derive(Copy, Clone, Eq, PartialEq, Debug, Structural)]
pub enum Fill {
    /// The line is empty or holds only whitespace
    Blank,
    /// The line holds content
    Text,
}

/// One line of the document, split at the end of its indentation
#[derive(Copy, Clone, Debug)]
pub struct Line<'a> {
    /// The number of spaces the line starts with
    pub indent: usize,
    /// The line without its leading spaces
    pub rest: &'a str,
    /// Whether `rest` holds anything but whitespace
    pub fill: Fill,
}

/// A line as plain values
pub open spec fn line_view(l: Line) -> (nat, Seq<char>, Fill) {
    (l.indent as nat, l.rest@, l.fill)
}

/// How a line of text splits at the end of its indentation
pub open spec fn line_spec(t: Seq<char>) -> (nat, Seq<char>, Fill) {
    let indent = run_len(t, 0, ' ');
    let rest = t.subrange(indent as int, t.len() as int);
    (indent, rest, if all_ws(rest) {
        Fill::Blank
    } else {
        Fill::Text
    })
}

impl<'a> Line<'a> {
    /// Splits one line of the document
    pub fn new(text: &'a str) -> (r: Self)
        ensures
            line_view(r) == line_spec(text@),
    {
        let s = chars_of(text);
        let indent = count_run(s.as_slice(), 0, ' ');
        proof {
            lemma_run_len(s@, 0, ' ');
        }
        let rest = crate::text::slice_of(text, s.as_slice(), indent, s.len());
        let fill = if all_whitespace(s.as_slice(), indent, s.len()) {
            Fill::Blank
        } else {
            Fill::Text
        };
        Line { indent, rest, fill }
    }
}

/// The fence a line opens, if it opens one
pub open spec fn opens_spec(rest: Seq<char>, indent: nat) -> Option<BlockState> {
    if indent > 3 || rest.len() == 0 {
        None
    } else {
        let c = rest[0];
        if c != '`' && c != '~' {
            None
        } else {
            let length = run_len(rest, 0, c);
            let info = rest.subrange(length as int, rest.len() as int);
            if length < 3 {
                None
            } else if c == '`' && (exists|j: int| 0 <= j < info.len() && #[trigger] info[j] == '`') {
                None
            } else {
                Some(BlockState::Fenced { marker: if c == '`' { 96u8 } else { 126u8 }, length: length as usize })
            }
        }
    }
}

/// Returns the fence a line opens, if it opens one
pub fn opens_fence(rest: &str, indent: usize) -> (r: Option<BlockState>)
    ensures
        r == opens_spec(rest@, indent as nat),
{
    if indent > 3 {
        return None;
    }
    let s = chars_of(rest);
    if s.len() == 0 {
        return None;
    }
    let c = s[0];
    if c != '`' && c != '~' {
        return None;
    }
    let length = count_run(s.as_slice(), 0, c);
    if length < 3 {
        return None;
    }
    proof {
        lemma_run_len(s@, 0, c);
    }
    let ghost info = s@.subrange(length as int, s@.len() as int);
    if c == '`' {
        match find_char(s.as_slice(), '`', length, s.len()) {
            Some(k) => {
                proof {
                    lemma_find_from(s@, '`', length as int, s@.len() as int);
                }
                assert(info[k - length] == '`');
                return None;
            },
            None => {
                proof {
                    lemma_find_from(s@, '`', length as int, s@.len() as int);
                }
                assert forall|j: int| 0 <= j < info.len() implies #[trigger] info[j] != '`' by {
                    assert(info[j] == s@[length + j]);
                }
            },
        }
    }
    Some(BlockState::Fenced { marker: if c == '`' { 96u8 } else { 126u8 }, length })
}

/// Whether a line closes the fence `marker` repeated `length` times opened
pub open spec fn closes_spec(rest: Seq<char>, marker: u8, length: int) -> bool {
    let count = if marker < 128u8 {
        run_len(rest, 0, marker as char) as int
    } else {
        0
    };
    count >= length && all_ws(rest.subrange(count, rest.len() as int))
}

/// Returns whether a line closes the fence that is currently open
///
/// A fence marker is an ASCII byte. A byte that starts a multi-byte
/// character cannot be counted without cutting that character in two, so
/// such a marker is excluded when the line starts with it.
pub fn closes_fence(rest: &str, marker: u8, length: usize) -> (r: bool)
    requires
        marker < 128u8 || !(encode_utf8(rest@).len() > 0 && encode_utf8(rest@)[0] == marker),
    ensures
        r == closes_spec(rest@, marker, length as int),
{
    let s = chars_of(rest);
    let count = if marker < 128u8 {
        count_run(s.as_slice(), 0, marker as char)
    } else {
        0
    };
    proof {
        lemma_run_len(s@, 0, marker as char);
    }
    count >= length && all_whitespace(s.as_slice(), count, s.len())
}

/// How the block scanner classifies a line that starts outside any code
/// block, given whether the line before it was blank
pub open spec fn classify_spec(line: (nat, Seq<char>, Fill), previous: Fill) -> (BlockState, LineRole) {
    match opens_spec(line.1, line.0) {
        Some(fence) => (fence, LineRole::Skip),
        None => match line.2 {
            Fill::Blank => (BlockState::Prose, LineRole::Skip),
            Fill::Text => if previous == Fill::Blank && line.0 >= 4 {
                (BlockState::IndentedCode, LineRole::Skip)
            } else {
                (BlockState::Prose, LineRole::Prose)
            },
        },
    }
}

/// How the block scanner moves across one line
pub open spec fn advance_spec(state: BlockState, line: (nat, Seq<char>, Fill), previous: Fill) -> (BlockState, LineRole) {
    match state {
        BlockState::Fenced { marker, length } => if line.0 <= 3 && closes_spec(line.1, marker, length as int) {
            (BlockState::Prose, LineRole::Skip)
        } else {
            (state, LineRole::Skip)
        },
        BlockState::IndentedCode => if line.2 == Fill::Blank || line.0 >= 4 {
            (BlockState::IndentedCode, LineRole::Skip)
        } else {
            classify_spec(line, previous)
        },
        BlockState::Prose => classify_spec(line, previous),
    }
}

/// Whether a state is one the block scanner can reach: a fence it opened
/// is drawn with backticks or tildes
pub open spec fn reachable(state: BlockState) -> bool {
    match state {
        BlockState::Fenced { marker, length } => marker == 96u8 || marker == 126u8,
        _ => true,
    }
}

/// Classifies a line that starts outside any code block
pub fn classify(line: Line, previous: Fill) -> (r: (BlockState, LineRole))
    ensures
        r == classify_spec(line_view(line), previous),
        reachable(r.0),
{
    match opens_fence(line.rest, line.indent) {
        Some(fence) => {
            return (fence, LineRole::Skip);
        },
        None => {},
    }
    match line.fill {
        Fill::Blank => (BlockState::Prose, LineRole::Skip),
        Fill::Text => if previous == Fill::Blank && line.indent >= 4 {
            (BlockState::IndentedCode, LineRole::Skip)
        } else {
            (BlockState::Prose, LineRole::Prose)
        },
    }
}

/// Advances the block scanner across one line
pub fn advance(state: BlockState, line: Line, previous: Fill) -> (r: (BlockState, LineRole))
    requires
        reachable(state),
    ensures
        r == advance_spec(state, line_view(line), previous),
        reachable(r.0),
{
    match state {
        BlockState::Fenced { marker, length } => {
            if line.indent <= 3 && closes_fence(line.rest, marker, length) {
                (BlockState::Prose, LineRole::Skip)
            } else {
                (BlockState::Fenced { marker, length }, LineRole::Skip)
            }
        },
        BlockState::IndentedCode => {
            if line.fill == Fill::Blank || line.indent >= 4 {
                (BlockState::IndentedCode, LineRole::Skip)
            } else {
                classify(line, previous)
            }
        },
        BlockState::Prose => classify(line, previous),
    }
}

/// The character ranges of the lines of `t[start..]`, split at newlines
pub open spec fn nl_pieces(t: Seq<char>, start: int) -> Seq<(usize, usize)>
    decreases t.len() - start,
{
    if start < 0 || start > t.len() {
        Seq::empty()
    } else {
        let k = find_from(t, '\n', start, t.len() as int);
        if k < 0 {
            seq![(start as usize, t.len() as usize)]
        } else {
            proof {
                lemma_find_from(t, '\n', start, t.len() as int);
            }
            seq![(start as usize, k as usize)] + nl_pieces(t, k + 1)
        }
    }
}

/// The block scanner's state after the lines `ps[..k]` of `t`: the prose
/// ranges so far, as byte offsets, the block it is in, and whether the last
/// line was blank
pub open spec fn prose_fold(t: Seq<char>, ps: Seq<(usize, usize)>, k: int) -> (Seq<(usize, usize)>, BlockState, Fill)
    decreases k,
{
    if k <= 0 || k > ps.len() {
        (Seq::empty(), BlockState::Prose, Fill::Blank)
    } else {
        let st = prose_fold(t, ps, k - 1);
        let a = ps[k - 1].0 as int;
        let b = ps[k - 1].1 as int;
        let start = utf8_size(t.subrange(0, a));
        let end = utf8_size(t.subrange(0, b));
        let line = line_spec(t.subrange(a, b));
        let step = advance_spec(st.1, line, st.2);
        let rs = st.0;
        let rs2 = if step.1 == LineRole::Prose {
            if rs.len() > 0 && rs.last().1 + 1 == start {
                rs.update(rs.len() - 1, (rs.last().0, end as usize))
            } else {
                rs.push((start as usize, end as usize))
            }
        } else {
            rs
        };
        (rs2, step.0, line.2)
    }
}

/// The byte ranges of `t` that hold prose
pub open spec fn prose_ranges_spec(t: Seq<char>) -> Seq<(usize, usize)> {
    let ps = nl_pieces(t, 0);
    prose_fold(t, ps, ps.len() as int).0
}

/// The views of a list of prose ranges
pub open spec fn range_views(rs: Seq<ProseRange>) -> Seq<(usize, usize)> {
    rs.map_values(|r: ProseRange| (r.start, r.end))
}

/// Splits a document into the byte ranges that hold prose
///
/// A code block can span many lines, so the rule cannot judge one line on
/// its own. Blank lines end a range as well, because neither a code span nor
/// a link may cross a paragraph break.
pub fn prose_ranges(content: &str) -> (r: Vec<ProseRange>)
    ensures
        range_views(r@) == prose_ranges_spec(content@),
        forall|k: int| 0 <= k < r@.len() ==> #[trigger] r@[k].end <= utf8_size(content@),
{
    let s = text_chars(content);
    let n = s.len();
    let ghost t = s@;
    let ghost ps = nl_pieces(t, 0);
    let mut ranges: Vec<ProseRange> = Vec::new();
    let mut state = BlockState::Prose;
    let mut previous = Fill::Blank;
    let mut i: usize = 0;
    let mut offset: usize = 0;
    let ghost mut k: int = 0;
    loop
        invariant
            t == s@,
            t == content@,
            n == t.len(),
            utf8_size(t) <= usize::MAX,
            i <= n,
            ps == nl_pieces(t, 0),
            0 <= k <= ps.len(),
            ps.subrange(0, k) + nl_pieces(t, i as int) == ps,
            offset == utf8_size(t.subrange(0, i as int)),
            range_views(ranges@) == prose_fold(t, ps, k).0,
            state == prose_fold(t, ps, k).1,
            previous == prose_fold(t, ps, k).2,
            reachable(state),
            forall|m: int| 0 <= m < ranges@.len() ==> #[trigger] ranges@[m].end <= utf8_size(t),
        decreases n - i,
    {
        proof {
            lemma_find_from(t, '\n', i as int, n as int);
        }
        let e = match find_char(s.as_slice(), '\n', i, n) {
            Some(j) => j,
            None => n,
        };
        assert(nl_pieces(t, i as int)[0] == (i, e));
        assert(ps[k] == (i, e)) by {
            assert(ps[k] == (ps.subrange(0, k) + nl_pieces(t, i as int))[k]);
        }
        proof {
            lemma_utf8_size_split(t, 0, i as int, e as int);
            lemma_utf8_size_mono(t, 0, e as int, n as int);
            assert(t.subrange(0, n as int) =~= t);
            lemma_utf8_size_mono(t, i as int, e as int, n as int);
            lemma_utf8_size_split(t, i as int, e as int, n as int);
        }
        let start = offset;
        let end = offset + byte_len(s.as_slice(), i, e);
        let text = crate::text::slice_of(content, s.as_slice(), i, e);
        let line = Line::new(text);
        let (next, role) = advance(state, line, previous);
        state = next;
        previous = line.fill;
        let ghost before = range_views(ranges@);
        let count = ranges.len();
        let extends = count > 0 && start > 0 && ranges[count - 1].end == start - 1;
        match role {
            LineRole::Prose => {
                if extends {
                    let first = ranges[count - 1].start;
                    ranges.set(count - 1, ProseRange { start: first, end });
                    assert(range_views(ranges@) =~= before.update(before.len() - 1, (before.last().0, end)));
                } else {
                    ranges.push(ProseRange { start, end });
                    assert(range_views(ranges@) =~= before.push((start, end)));
                }
            },
            LineRole::Skip => {},
        }
        proof {
            k = k + 1;
        }
        assert(range_views(ranges@) == prose_fold(t, ps, k).0);
        if e == n {
            assert(nl_pieces(t, i as int) =~= seq![(i, e)]);
            assert(ps.subrange(0, k) =~= ps);
            assert(k == ps.len());
            assert(prose_ranges_spec(content@) == prose_fold(t, ps, k).0);
            return ranges;
        }
        proof {
            crate::text::lemma_utf8_size_push(t.subrange(0, e as int), '\n');
            assert(t.subrange(0, e as int).push('\n') =~= t.subrange(0, e + 1));
            assert(encode_scalar('\n' as u32).len() == 1);
            lemma_utf8_size_mono(t, 0, e + 1, n as int);
            assert(ps.subrange(0, k) =~= ps.subrange(0, k - 1).push((i, e)));
            assert(nl_pieces(t, i as int) =~= seq![(i, e)] + nl_pieces(t, e + 1));
        }
        i = e + 1;
        offset = end + 1;
    }
}

/// The links that the scans of the ranges `rs[..k]` find, in order
pub open spec fn links_in(b: Seq<u8>, rs: Seq<(usize, usize)>, k: int) -> Seq<(LinkKind, int, int)>
    decreases k,
{
    if k <= 0 || k > rs.len() {
        Seq::empty()
    } else {
        links_in(b, rs, k - 1) + links_from(b, rs[k - 1].0 as int, rs[k - 1].1 as int)
    }
}

/// Every inline link in a Markdown document
pub open spec fn find_all_spec(content: Seq<char>) -> Seq<(LinkKind, int, int)> {
    let rs = prose_ranges_spec(content);
    links_in(encode_utf8(content), rs, rs.len() as int)
}

impl InlineLink {
    /// Finds every inline link in a Markdown document
    ///
    /// It skips fenced and indented code blocks, code spans, and bracket runs
    /// that a backslash escapes. Reference links such as `[text]` and
    /// `[text][label]` are the forms this rule asks for, so they never match.
    #[verifier::spinoff_prover]
    pub fn find_all(content: &str) -> (r: Vec<Self>)
        ensures
            link_views(r@) == find_all_spec(content@),
            forall|m: int|
                0 <= m < r@.len() ==> #[trigger] r@[m].spec_start() < r@[m].spec_end() <= utf8_size(content@),
    {
        let bytes = content.as_bytes();
        let ranges = prose_ranges(content);
        let ghost rs = range_views(ranges@);
        let mut links: Vec<InlineLink> = Vec::new();
        let mut k: usize = 0;
        while k < ranges.len()
            invariant
                bytes@ == encode_utf8(content@),
                rs == range_views(ranges@),
                rs == prose_ranges_spec(content@),
                forall|m: int| 0 <= m < ranges@.len() ==> #[trigger] ranges@[m].end <= utf8_size(content@),
                k <= ranges@.len(),
                link_views(links@) == links_in(bytes@, rs, k as int),
                forall|m: int|
                    0 <= m < links@.len() ==> #[trigger] links@[m].spec_start() < links@[m].spec_end() <= utf8_size(content@),
            decreases ranges@.len() - k,
        {
            let r = ranges[k];
            assert(rs[k as int] == (r.start, r.end));
            assert(ranges@[k as int].end <= utf8_size(content@));
            let ghost before = links@;
            scan(bytes, r.start, r.end, &mut links);
            proof {
                lemma_links_from(bytes@, r.start as int, r.end as int);
                let found = links_from(bytes@, r.start as int, r.end as int);
                assert(link_views(links@) == link_views(before) + found);
                assert(link_views(links@).len() == links@.len());
                assert(link_views(before).len() == before.len());
                assert forall|m: int| 0 <= m < links@.len() implies #[trigger] links@[m].spec_start() < links@[m].spec_end() <= utf8_size(content@) by {
                    if m < before.len() {
                        assert(link_views(links@)[m] == (link_views(before) + found)[m]);
                        assert(link_views(links@)[m] == link_views(before)[m]);
                        assert(link_view(links@[m]) == link_view(before[m]));
                        assert(before[m].spec_start() < before[m].spec_end() <= utf8_size(content@));
                    } else {
                        let j = m - before.len();
                        assert(links_from(bytes@, r.start as int, r.end as int)[j].1 < links_from(bytes@, r.start as int, r.end as int)[j].2);
                        assert(links_from(bytes@, r.start as int, r.end as int)[j].2 <= r.end);
                        assert(link_views(links@)[m] == (link_views(before) + found)[m]);
                        assert(link_views(links@)[m] == found[m - before.len()]);
                        assert(link_views(links@)[m] == link_view(links@[m]));
                    }
                }
            }
            k += 1;
        }
        links
    }
}

} // verus!
