//! Reading the Markdown lines of a doc comment
//!
//! Each helper here answers one question about a line, such as whether it
//! opens a code fence or starts a list item, or reshapes a line the way
//! rustdoc does before it reads Markdown.
use vstd::prelude::*;

use crate::long_doc_sentence::sentence::{count_digits, count_run, digit_run, lemma_run_len, run_len};
use crate::text::{
    all_whitespace, all_ws, byte_len, chars_of, find_char, find_from, is_whitespace, is_ws,
    lemma_find_from, lemma_skip_ws_bounds, lemma_utf8_size_mono, lemma_utf8_size_split,
    skip_whitespace, skip_ws, slice_of, trim, trim_at, trim_start, trim_start_at, utf8_size,
};

verus! {

broadcast use vstd::seq_lib::group_seq_properties;

/// One line of Markdown taken from a doc comment
///
/// The offset locates the first byte of `text` in the file, so a finding
/// inside the line converts straight into a byte range of the file.
#[derive(Copy, Clone, Debug)]
pub struct DocLine<'a> {
    pub text: &'a str,
    pub offset: usize,
}

/// A line as plain values: its characters and its file offset
pub open spec fn line_view(l: DocLine) -> (Seq<char>, usize) {
    (l.text@, l.offset)
}

/// The views of a list of lines
pub open spec fn line_views(ls: Seq<DocLine>) -> Seq<(Seq<char>, usize)> {
    ls.map_values(|l: DocLine| line_view(l))
}

/// Whether every byte of the line has a file offset that fits in a `usize`
pub open spec fn line_fits(l: (Seq<char>, usize)) -> bool {
    l.1 + utf8_size(l.0) <= usize::MAX
}

/// A line with its first `j` characters removed, its offset moved past them
pub open spec fn drop_chars(l: (Seq<char>, usize), j: int) -> (Seq<char>, usize) {
    (l.0.subrange(j, l.0.len() as int), (l.1 + utf8_size(l.0.subrange(0, j))) as usize)
}

proof fn lemma_drop_fits(l: (Seq<char>, usize), j: int)
    requires
        line_fits(l),
        0 <= j <= l.0.len(),
    ensures
        line_fits(drop_chars(l, j)),
        l.1 + utf8_size(l.0.subrange(0, j)) <= usize::MAX,
{
    lemma_utf8_size_split(l.0, 0, j, l.0.len() as int);
    assert(l.0.subrange(0, l.0.len() as int) =~= l.0);
}

/// Returns `line` with its first `j` characters removed
fn drop_front<'a>(line: DocLine<'a>, s: &[char], j: usize) -> (r: DocLine<'a>)
    requires
        s@ == line.text@,
        j <= s@.len(),
        line_fits(line_view(line)),
    ensures
        line_view(r) == drop_chars(line_view(line), j as int),
        line_fits(line_view(r)),
{
    proof {
        lemma_drop_fits(line_view(line), j as int);
        lemma_utf8_size_mono(s@, 0, j as int, s@.len() as int);
        assert(s@.subrange(0, s@.len() as int) =~= s@);
    }
    let consumed = byte_len(s, 0, j);
    DocLine { text: slice_of(line.text, s, j, s.len()), offset: line.offset + consumed }
}

/// Where the text after a block comment's left-edge `*` starts, if the line
/// has one
pub open spec fn star_end(t: Seq<char>) -> Option<int> {
    let k = skip_ws(t, 0);
    if k < t.len() && t[k] == '*' {
        let r = k + 1;
        if r < t.len() && t[r] != ' ' && t[r] != '\t' {
            None
        } else if r < t.len() && t[r] == ' ' {
            Some(r + 1)
        } else {
            Some(r)
        }
    } else {
        None
    }
}

/// A line without the `*` that decorates the left edge of a block comment
pub open spec fn star_spec(l: (Seq<char>, usize)) -> (Seq<char>, usize) {
    match star_end(l.0) {
        Some(j) => drop_chars(l, j),
        None => l,
    }
}

/// Removes the `*` that decorates the left edge of a block comment
pub fn strip_star<'a>(line: DocLine<'a>) -> (r: DocLine<'a>)
    requires
        line_fits(line_view(line)),
    ensures
        line_view(r) == star_spec(line_view(line)),
        line_fits(line_view(r)),
{
    let s = chars_of(line.text);
    let n = s.len();
    proof {
        lemma_skip_ws_bounds(s@, 0);
    }
    let k = skip_whitespace(s.as_slice(), 0);
    if k < n && s[k] == '*' {
        let r = k + 1;
        if r < n && s[r] != ' ' && s[r] != '\t' {
            return line;
        }
        let j = if r < n && s[r] == ' ' {
            r + 1
        } else {
            r
        };
        drop_front(line, s.as_slice(), j)
    } else {
        line
    }
}

/// Returns how many spaces a line starts with
pub fn spaces(text: &str) -> (r: usize)
    ensures
        r == run_len(text@, 0, ' '),
{
    let s = chars_of(text);
    count_run(s.as_slice(), 0, ' ')
}

/// Whether a line holds nothing but whitespace
pub open spec fn blank(t: Seq<char>) -> bool {
    all_ws(t)
}

/// The smallest indentation among the lines `ls[..k]` that are not blank,
/// or [`None`] when all of them are
pub open spec fn common_upto(ls: Seq<(Seq<char>, usize)>, k: int) -> Option<nat>
    decreases k,
{
    if k <= 0 || k > ls.len() {
        None
    } else {
        let p = common_upto(ls, k - 1);
        let t = ls[k - 1].0;
        if blank(t) {
            p
        } else {
            match p {
                None => Some(run_len(t, 0, ' ')),
                Some(m) => Some(if run_len(t, 0, ' ') < m {
                    run_len(t, 0, ' ')
                } else {
                    m
                }),
            }
        }
    }
}

/// The indentation that rustdoc drops from every line of `ls`
pub open spec fn common_indent(ls: Seq<(Seq<char>, usize)>) -> nat {
    match common_upto(ls, ls.len() as int) {
        Some(m) => m,
        None => 0,
    }
}

/// A line without `common` columns of indentation, or fewer when it has
/// fewer spaces
pub open spec fn unindent_line(l: (Seq<char>, usize), common: nat) -> (Seq<char>, usize) {
    let sp = run_len(l.0, 0, ' ');
    drop_chars(l, if common < sp { common as int } else { sp as int })
}

/// The lines of `ls` once rustdoc drops their shared indentation
pub open spec fn unindent_spec(ls: Seq<(Seq<char>, usize)>) -> Seq<(Seq<char>, usize)> {
    ls.map_values(|l: (Seq<char>, usize)| unindent_line(l, common_indent(ls)))
}

/// Whether every line fits
pub open spec fn all_fit(ls: Seq<(Seq<char>, usize)>) -> bool {
    forall|i: int| 0 <= i < ls.len() ==> #[trigger] line_fits(ls[i])
}

/// Removes the indentation that rustdoc drops before it reads Markdown
///
/// Rustdoc drops the smallest indentation the block shares, which is
/// normally the single space after the marker. What remains is real Markdown
/// indentation, so four columns mean an indented code block.
pub fn unindent(lines: &mut Vec<DocLine>)
    requires
        all_fit(line_views(old(lines)@)),
    ensures
        line_views(final(lines)@) == unindent_spec(line_views(old(lines)@)),
        all_fit(line_views(final(lines)@)),
{
    let ghost ls = line_views(lines@);
    let n = lines.len();
    let mut common: Option<usize> = None;
    let mut k: usize = 0;
    while k < n
        invariant
            n == lines@.len(),
            ls == line_views(lines@),
            k <= n,
            match common {
                Some(c) => common_upto(ls, k as int) == Some(c as nat),
                None => common_upto(ls, k as int) is None,
            },
        decreases n - k,
    {
        let line = lines[k];
        let s = chars_of(line.text);
        assert(s@.subrange(0, s@.len() as int) =~= s@);
        if !all_whitespace(s.as_slice(), 0, s.len()) {
            let sp = spaces(line.text);
            common = match common {
                None => Some(sp),
                Some(c) => Some(if sp < c {
                    sp
                } else {
                    c
                }),
            };
        }
        k += 1;
    }
    let common: usize = match common {
        Some(c) => c,
        None => 0,
    };
    assert(common == common_indent(ls));
    let mut k: usize = 0;
    while k < n
        invariant
            n == lines@.len() == ls.len(),
            all_fit(ls),
            common == common_indent(ls),
            k <= n,
            forall|j: int| 0 <= j < k ==> #[trigger] line_view(lines@[j]) == unindent_line(ls[j], common as nat),
            forall|j: int| k <= j < n ==> #[trigger] line_view(lines@[j]) == ls[j],
        decreases n - k,
    {
        let line = lines[k];
        assert(line_view(line) == ls[k as int]);
        assert(line_fits(ls[k as int]));
        let s = chars_of(line.text);
        let sp = count_run(s.as_slice(), 0, ' ');
        let strip = if common < sp {
            common
        } else {
            sp
        };
        let updated = drop_front(line, s.as_slice(), strip);
        lines.set(k, updated);
        k += 1;
    }
    assert(line_views(lines@) =~= unindent_spec(ls));
    assert forall|i: int| 0 <= i < line_views(lines@).len() implies #[trigger] line_fits(line_views(lines@)[i]) by {
        let sp = run_len(ls[i].0, 0, ' ');
        lemma_run_len(ls[i].0, 0, ' ');
        lemma_drop_fits(ls[i], if common < sp { common as int } else { sp as int });
    }
}

/// How far a line is indented from position `i` on, where a tab is four
/// columns
pub open spec fn indent_from(t: Seq<char>, i: int) -> nat
    decreases t.len() - i,
{
    if 0 <= i < t.len() && t[i] == ' ' {
        1 + indent_from(t, i + 1)
    } else if 0 <= i < t.len() && t[i] == '\t' {
        4 + indent_from(t, i + 1)
    } else {
        0
    }
}

proof fn lemma_indent_bound(t: Seq<char>, i: int)
    requires
        0 <= i <= t.len(),
    ensures
        indent_from(t, i) <= 4 * (t.len() - i),
    decreases t.len() - i,
{
    if i < t.len() {
        lemma_indent_bound(t, i + 1);
    }
}

/// Returns how far a line is indented, where a tab is four columns
pub fn indent_width(text: &str) -> (r: usize)
    requires
        indent_from(text@, 0) <= usize::MAX,
    ensures
        r == indent_from(text@, 0),
{
    let s = chars_of(text);
    let mut width: usize = 0;
    let mut k: usize = 0;
    while k < s.len() && (s[k] == ' ' || s[k] == '\t')
        invariant
            k <= s@.len(),
            s@ == text@,
            indent_from(text@, 0) <= usize::MAX,
            indent_from(text@, 0) == width + indent_from(text@, k as int),
        decreases s@.len() - k,
    {
        if s[k] == ' ' {
            width += 1;
        } else {
            width += 4;
        }
        k += 1;
    }
    width
}

/// Whether a line is an ATX heading, such as `# Errors`
///
/// CommonMark accepts a tab after the hashes as readily as a space.
pub open spec fn heading_spec(t: Seq<char>) -> bool {
    let h = run_len(t, 0, '#');
    1 <= h <= 6 && (h == t.len() || t[h as int] == ' ' || t[h as int] == '\t')
}

/// Returns whether a line is an ATX heading, such as `# Errors`
pub fn is_heading(trimmed: &str) -> (r: bool)
    ensures
        r == heading_spec(trimmed@),
{
    let s = chars_of(trimmed);
    let h = count_run(s.as_slice(), 0, '#');
    if h == 0 || h > 6 {
        return false;
    }
    h == s.len() || s[h] == ' ' || s[h] == '\t'
}

/// The characters a horizontal rule or a heading underline is drawn with
pub open spec fn rule_char(c: char) -> bool {
    c == '-' || c == '=' || c == '*' || c == '_'
}

/// Whether a line is a horizontal rule or a heading underline
pub open spec fn rule_spec(t: Seq<char>) -> bool {
    let k = skip_ws(t, 0);
    k < t.len() && rule_char(t[k]) && forall|j: int| 0 <= j < t.len() && !is_ws(t[j]) ==> #[trigger] t[j] == t[k]
}

/// Returns whether a line is a horizontal rule or a heading underline
///
/// A row of hyphens under a paragraph would otherwise look to the scan like
/// a spaced hyphen in the middle of a sentence.
pub fn is_rule(trimmed: &str) -> (r: bool)
    ensures
        r == rule_spec(trimmed@),
{
    let s = chars_of(trimmed);
    proof {
        lemma_skip_ws_bounds(s@, 0);
    }
    let k = skip_whitespace(s.as_slice(), 0);
    if k == s.len() {
        return false;
    }
    let first = s[k];
    if !(first == '-' || first == '=' || first == '*' || first == '_') {
        return false;
    }
    let mut j: usize = 0;
    while j < s.len()
        invariant
            s@ == trimmed@,
            k < s@.len(),
            first == s@[k as int],
            k == skip_ws(s@, 0),
            j <= s@.len(),
            forall|m: int| 0 <= m < j && !is_ws(s@[m]) ==> #[trigger] s@[m] == first,
        decreases s@.len() - j,
    {
        if !is_whitespace(s[j]) && s[j] != first {
            return false;
        }
        j += 1;
    }
    true
}

/// The characters a table's delimiter row is built from
pub open spec fn table_char(c: char) -> bool {
    c == '-' || c == ':' || c == '|' || c == ' '
}

/// Whether a line is a row of a Markdown table
pub open spec fn table_spec(t: Seq<char>) -> bool {
    (t.len() > 0 && t[0] == '|') || ((exists|j: int| 0 <= j < t.len() && #[trigger] t[j] == '|')
        && forall|j: int| 0 <= j < t.len() ==> #[trigger] table_char(t[j]))
}

/// Returns whether a line is a row of a Markdown table
///
/// A cell holds a fragment rather than a sentence, and the delimiter row is
/// built from dashes.
pub fn is_table_row(trimmed: &str) -> (r: bool)
    ensures
        r == table_spec(trimmed@),
{
    let s = chars_of(trimmed);
    if s.len() > 0 && s[0] == '|' {
        return true;
    }
    let mut bar = false;
    let mut j: usize = 0;
    while j < s.len()
        invariant
            s@ == trimmed@,
            !(s@.len() > 0 && s@[0] == '|'),
            j <= s@.len(),
            forall|m: int| 0 <= m < j ==> #[trigger] table_char(s@[m]),
            bar <==> exists|m: int| 0 <= m < j && #[trigger] s@[m] == '|',
        decreases s@.len() - j,
    {
        let c = s[j];
        if !(c == '-' || c == ':' || c == '|' || c == ' ') {
            assert(!table_char(s@[j as int]));
            return false;
        }
        if c == '|' {
            bar = true;
        }
        j += 1;
    }
    bar
}

/// Whether a line defines a reference-style Markdown link
pub open spec fn link_definition_spec(t: Seq<char>) -> bool {
    t.len() > 0 && t[0] == '[' && {
        let k = find_from(t, ']', 1, t.len() as int);
        k >= 0 && k + 1 < t.len() && t[k + 1] == ':'
    }
}

/// Returns whether a line defines a reference-style Markdown link
pub fn is_link_definition(trimmed: &str) -> (r: bool)
    ensures
        r == link_definition_spec(trimmed@),
{
    let s = chars_of(trimmed);
    if s.len() == 0 || s[0] != '[' {
        return false;
    }
    match find_char(s.as_slice(), ']', 1, s.len()) {
        Some(k) => {
            proof {
                lemma_find_from(s@, ']', 1, s@.len() as int);
            }
            k + 1 < s.len() && s[k + 1] == ':'
        },
        None => false,
    }
}

/// The run of backticks or tildes that opens a code fence
pub open spec fn fence_spec(t: Seq<char>) -> Option<Seq<char>> {
    let b = run_len(t, 0, '`');
    let w = run_len(t, 0, '~');
    if b >= 3 {
        Some(t.subrange(0, b as int))
    } else if w >= 3 {
        Some(t.subrange(0, w as int))
    } else {
        None
    }
}

/// Returns the run of backticks or tildes that opens a code fence
pub fn fence_run(trimmed: &str) -> (r: Option<&str>)
    ensures
        match r {
            Some(run) => fence_spec(trimmed@) == Some(run@),
            None => fence_spec(trimmed@) is None,
        },
{
    let s = chars_of(trimmed);
    let b = count_run(s.as_slice(), 0, '`');
    if b >= 3 {
        return Some(slice_of(trimmed, s.as_slice(), 0, b));
    }
    let w = count_run(s.as_slice(), 0, '~');
    if w >= 3 {
        return Some(slice_of(trimmed, s.as_slice(), 0, w));
    }
    None
}

/// Whether a line closes the fence that `open` started: it opens with at
/// least as many bytes of the fence's character, and nothing else follows
pub open spec fn closes_spec(t: Seq<char>, open: Seq<char>) -> bool {
    open.len() > 0 && {
        let w = run_len(t, 0, open[0]);
        utf8_size(t.subrange(0, w as int)) >= utf8_size(open) && all_ws(t.subrange(w as int, t.len() as int))
    }
}

/// Returns whether a line closes the fence that `open` started
pub fn closes_fence(trimmed: &str, open: &str) -> (r: bool)
    ensures
        r == closes_spec(trimmed@, open@),
{
    let o = chars_of(open);
    if o.len() == 0 {
        return false;
    }
    let s = crate::text::text_chars(trimmed);
    let w = count_run(s.as_slice(), 0, o[0]);
    proof {
        lemma_utf8_size_mono(s@, 0, w as int, s@.len() as int);
        assert(s@.subrange(0, s@.len() as int) =~= s@);
    }
    let width = byte_len(s.as_slice(), 0, w);
    let opened = open.as_bytes().len();
    width >= opened && all_whitespace(s.as_slice(), w, s.len())
}

/// Where the text after a list marker starts in `t`, if the line has one
pub open spec fn marker_end(t: Seq<char>) -> Option<int> {
    let spaced = |r: int| r == t.len() || t[r] == ' ' || t[r] == '\t';
    if t.len() > 0 && (t[0] == '-' || t[0] == '*' || t[0] == '+') && spaced(1) {
        Some(skip_ws(t, 1))
    } else {
        let d = digit_run(t, 0) as int;
        if d == 0 {
            None
        } else if d < t.len() && (t[d] == '.' || t[d] == ')') && spaced(d + 1) {
            Some(skip_ws(t, d + 1))
        } else {
            None
        }
    }
}

fn marker_end_in(s: &[char]) -> (r: Option<usize>)
    ensures
        match r {
            Some(j) => marker_end(s@) == Some(j as int) && j <= s@.len(),
            None => marker_end(s@) is None,
        },
{
    let n = s.len();
    if n > 0 && (s[0] == '-' || s[0] == '*' || s[0] == '+') {
        if n == 1 || s[1] == ' ' || s[1] == '\t' {
            proof {
                lemma_skip_ws_bounds(s@, 1);
            }
            return Some(skip_whitespace(s, 1));
        }
    }
    let d = count_digits(s, 0);
    if d == 0 {
        return None;
    }
    if d < n && (s[d] == '.' || s[d] == ')') {
        if d + 1 == n || s[d + 1] == ' ' || s[d + 1] == '\t' {
            proof {
                lemma_skip_ws_bounds(s@, d + 1);
            }
            return Some(skip_whitespace(s, d + 1));
        }
    }
    None
}

/// Returns the text that follows a list marker, if the line has one
pub fn marker_rest(trimmed: &str) -> (r: Option<&str>)
    ensures
        match r {
            Some(rest) => marker_end(trimmed@) matches Some(j) && rest@ == trimmed@.subrange(
                j,
                trimmed@.len() as int,
            ),
            None => marker_end(trimmed@) is None,
        },
{
    let s = chars_of(trimmed);
    match marker_end_in(s.as_slice()) {
        Some(j) => Some(slice_of(trimmed, s.as_slice(), j, s.len())),
        None => None,
    }
}

/// A line without its list marker
pub open spec fn strip_marker_spec(l: (Seq<char>, usize)) -> (Seq<char>, usize) {
    let a = skip_ws(l.0, 0);
    match marker_end(l.0.subrange(a, l.0.len() as int)) {
        Some(k) => drop_chars(l, a + k),
        None => l,
    }
}

/// Removes a list marker from the start of a line
///
/// A dash that opens a list item is punctuation, not an aside, so the scan
/// never sees it.
pub fn strip_marker<'a>(line: DocLine<'a>) -> (r: DocLine<'a>)
    requires
        line_fits(line_view(line)),
    ensures
        line_view(r) == strip_marker_spec(line_view(line)),
        line_fits(line_view(r)),
{
    let s = chars_of(line.text);
    proof {
        lemma_skip_ws_bounds(s@, 0);
    }
    let a = skip_whitespace(s.as_slice(), 0);
    let t = slice_of(line.text, s.as_slice(), a, s.len());
    let tc = chars_of(t);
    match marker_end_in(tc.as_slice()) {
        Some(k) => drop_front(line, s.as_slice(), a + k),
        None => line,
    }
}

/// What the walk over a doc block knows after some lines: the prose lines so
/// far (with [`None`] for a line that is not prose), the fence left open,
/// and whether an indented code block is running
pub type ProseState = (Seq<Option<(Seq<char>, usize)>>, Option<Seq<char>>, bool);

/// The walk's state once it has read line `i`
pub open spec fn prose_step(ls: Seq<(Seq<char>, usize)>, i: int, st: ProseState) -> ProseState {
    let out = st.0;
    let line = ls[i];
    let trimmed = trim_start(line.0);
    match st.1 {
        Some(open) => (out.push(None), if closes_spec(trimmed, open) {
            None
        } else {
            st.1
        }, st.2),
        None => if trimmed.len() == 0 {
            (out.push(None), None, false)
        } else {
            let deep = indent_from(line.0, 0) >= 4;
            let after_blank = i == 0 || blank(ls[i - 1].0);
            if st.2 && deep {
                (out.push(None), None, true)
            } else if after_blank && deep {
                (out.push(None), None, true)
            } else {
                match fence_spec(trimmed) {
                    Some(run) => (out.push(None), Some(run), false),
                    None => if heading_spec(trimmed) || rule_spec(trimmed) || table_spec(trimmed)
                        || link_definition_spec(trimmed) {
                        (out.push(None), None, false)
                    } else {
                        (out.push(Some(strip_marker_spec(line))), None, false)
                    },
                }
            }
        },
    }
}

/// The walk's state once it has read the lines `ls[..k]`
pub open spec fn prose_upto(ls: Seq<(Seq<char>, usize)>, k: int) -> ProseState
    decreases k,
{
    if k <= 0 || k > ls.len() {
        (Seq::empty(), None, false)
    } else {
        prose_step(ls, k - 1, prose_upto(ls, k - 1))
    }
}

/// The prose lines of a doc block, one slot per line
pub open spec fn prose_spec(ls: Seq<(Seq<char>, usize)>) -> Seq<Option<(Seq<char>, usize)>> {
    prose_upto(ls, ls.len() as int).0
}

/// The view of a slot that may hold a line
pub open spec fn slot_view(l: Option<DocLine>) -> Option<(Seq<char>, usize)> {
    match l {
        Some(x) => Some(line_view(x)),
        None => None,
    }
}

/// Whether a slot is empty or holds a line that fits
pub open spec fn slot_fits(l: Option<DocLine>) -> bool {
    match l {
        Some(x) => line_fits(line_view(x)),
        None => true,
    }
}

/// The views of a list of slots
pub open spec fn slot_views(ls: Seq<Option<DocLine>>) -> Seq<Option<(Seq<char>, usize)>> {
    ls.map_values(|l: Option<DocLine>| slot_view(l))
}

/// Returns whether a line is indented by four columns or more, where a tab
/// is four columns
fn deeply_indented(s: &[char]) -> (r: bool)
    ensures
        r == (indent_from(s@, 0) >= 4),
{
    let mut width: usize = 0;
    let mut k: usize = 0;
    while k < s.len() && (s[k] == ' ' || s[k] == '\t') && width < 4
        invariant
            k <= s@.len(),
            width < 4 ==> indent_from(s@, 0) == width + indent_from(s@, k as int),
            width >= 4 ==> indent_from(s@, 0) >= 4,
        decreases s@.len() - k,
    {
        if s[k] == ' ' {
            width += 1;
        } else {
            width += 4;
        }
        k += 1;
    }
    width >= 4
}

/// Returns the prose lines of a doc block, with list markers removed
///
/// The result keeps one slot per input line and holds [`None`] where a line
/// is not prose: inside a code fence or an indented code block, blank, or a
/// heading, a rule, a table row, or a link definition.
pub fn prose_lines<'a>(lines: &[DocLine<'a>]) -> (r: Vec<Option<DocLine<'a>>>)
    requires
        all_fit(line_views(lines@)),
    ensures
        slot_views(r@) == prose_spec(line_views(lines@)),
        forall|i: int| 0 <= i < r@.len() ==> #[trigger] slot_fits(r@[i]),
{
    let ghost ls = line_views(lines@);
    let n = lines.len();
    let mut prose: Vec<Option<DocLine<'a>>> = Vec::new();
    let mut fence: Option<&'a str> = None;
    let mut indented_code = false;
    let mut index: usize = 0;
    while index < n
        invariant
            n == lines@.len() == ls.len(),
            ls == line_views(lines@),
            all_fit(ls),
            index <= n,
            slot_views(prose@) == prose_upto(ls, index as int).0,
            match fence {
                Some(f) => prose_upto(ls, index as int).1 == Some(f@),
                None => prose_upto(ls, index as int).1 is None,
            },
            indented_code == prose_upto(ls, index as int).2,
            forall|i: int| 0 <= i < prose@.len() ==> #[trigger] slot_fits(prose@[i]),
        decreases n - index,
    {
        let line = lines[index];
        assert(line_view(line) == ls[index as int]);
        assert(line_fits(ls[index as int]));
        let ghost before = slot_views(prose@);
        let s = chars_of(line.text);
        proof {
            lemma_skip_ws_bounds(s@, 0);
        }
        let a = skip_whitespace(s.as_slice(), 0);
        let trimmed = slice_of(line.text, s.as_slice(), a, s.len());
        match fence {
            Some(open) => {
                if closes_fence(trimmed, open) {
                    fence = None;
                }
                prose.push(None);
            },
            None => {
                if a == s.len() {
                    indented_code = false;
                    prose.push(None);
                } else {
                    let deep = deeply_indented(s.as_slice());
                    let after_blank = if index == 0 {
                        true
                    } else {
                        let p = chars_of(lines[index - 1].text);
                        assert(p@.subrange(0, p@.len() as int) =~= p@);
                        all_whitespace(p.as_slice(), 0, p.len())
                    };
                    if indented_code && deep {
                        prose.push(None);
                    } else if after_blank && deep {
                        indented_code = true;
                        prose.push(None);
                    } else {
                        indented_code = false;
                        match fence_run(trimmed) {
                            Some(run) => {
                                fence = Some(run);
                                prose.push(None);
                            },
                            None => {
                                if is_heading(trimmed) || is_rule(trimmed) || is_table_row(trimmed)
                                    || is_link_definition(trimmed) {
                                    prose.push(None);
                                } else {
                                    prose.push(Some(strip_marker(line)));
                                }
                            },
                        }
                    }
                }
            },
        }
        assert(slot_views(prose@) =~= prose_upto(ls, index + 1).0);
        index += 1;
    }
    prose
}

} // verus!
