//! The Markdown of one doc comment, joined the way rustdoc joins it
//!
//! Rustdoc reads the consecutive `///` lines above an item as one document.
//! A code fence can open on one line and close on a later one, so a rule
//! that reads each comment line alone never sees the fence close.
use vstd::prelude::*;

use crate::no_em_dash_aside::markdown::{
    all_fit, line_fits, line_view, line_views, unindent, unindent_spec, DocLine,
};
use crate::no_em_dash_aside::masking::{
    join, joined_upto, lemma_locate_fits, locate, locate_spec, starts_upto,
};
use crate::reference_style_links::inline_link::nl_pieces;
use crate::syntax::{child_by_field_name, field_child, text_of, SyntaxTree};
use crate::text::{
    find_char, find_from, lemma_find_from, lemma_strip_last, lemma_utf8_size_mono, lemma_utf8_size_split, slice_of,
    strip_suffix, text_chars, utf8_size,
};

verus! {

broadcast use vstd::seq_lib::group_seq_properties;

/// The text of a `doc` field without the newline, and then the carriage
/// return, that may end it
pub open spec fn body_of(t: Seq<char>) -> Seq<char> {
    let a = match strip_suffix(t, seq!['\n']) {
        Some(x) => x,
        None => t,
    };
    match strip_suffix(a, seq!['\r']) {
        Some(x) => x,
        None => a,
    }
}

/// A line without the carriage return that may end it
pub open spec fn strip_cr(t: Seq<char>) -> Seq<char> {
    match strip_suffix(t, seq!['\r']) {
        Some(x) => x,
        None => t,
    }
}

/// The lines of a doc comment's body, each with the file offset of its first
/// byte, given the offset `start` of the body
pub open spec fn body_lines(body: Seq<char>, start: int) -> Seq<(Seq<char>, usize)> {
    nl_pieces(body, 0).map_values(|p: (usize, usize)| body_line(body, start, p))
}

/// The line that the character range `p` of `body` holds, with the file
/// offset of its first byte
pub open spec fn body_line(body: Seq<char>, start: int, p: (usize, usize)) -> (Seq<char>, usize) {
    (strip_cr(body.subrange(p.0 as int, p.1 as int)), (start + utf8_size(body.subrange(0, p.0 as int))) as usize)
}

/// The lines comment node `c` contributes: none when it has no `doc` field
pub open spec fn comment_lines(t: SyntaxTree, c: int) -> Seq<(Seq<char>, usize)> {
    match field_child(t, c, "doc"@) {
        None => Seq::empty(),
        Some(d) => body_lines(body_of(text_of(t, d as int)), t.node_at(d as int).start as int),
    }
}

/// The lines the comments `cs[..k]` contribute, in order
pub open spec fn raw_lines(t: SyntaxTree, cs: Seq<usize>, k: int) -> Seq<(Seq<char>, usize)>
    decreases k,
{
    if k <= 0 || k > cs.len() {
        Seq::empty()
    } else {
        raw_lines(t, cs, k - 1) + comment_lines(t, cs[k - 1] as int)
    }
}

/// The Markdown of one doc comment: the joined text, the lines it was joined
/// from with their file offsets, and where each line starts in the text
pub struct DocBlock<'a> {
    content: String,
    lines: Vec<DocLine<'a>>,
    starts: Vec<usize>,
}

impl<'a> DocBlock<'a> {
    /// The joined text
    pub closed spec fn text(&self) -> Seq<char> {
        self.content@
    }

    /// The lines the text was joined from, with their file offsets
    pub closed spec fn parts(&self) -> Seq<(Seq<char>, usize)> {
        line_views(self.lines@)
    }

    /// Whether the block holds what joining its lines gives
    pub closed spec fn valid(&self) -> bool {
        &&& self.lines@.len() >= 1
        &&& all_fit(line_views(self.lines@))
        &&& self.content@ == joined_upto(line_views(self.lines@), self.lines@.len() as int)
        &&& self.starts@ == starts_upto(line_views(self.lines@), self.lines@.len() as int)
    }

    /// Returns the joined Markdown text
    pub fn content(&self) -> (r: &str)
        ensures
            r@ == self.text(),
    {
        self.content.as_str()
    }

    /// The file offset that offset `offset` of the joined text came from
    pub closed spec fn file_offset(&self, offset: int) -> int {
        locate_spec(line_views(self.lines@), self.starts@, offset)
    }

    /// What `file_offset` is, in terms of the lines the text was joined from
    pub proof fn lemma_file_offset(&self, offset: int)
        requires
            self.valid(),
        ensures
            self.file_offset(offset) == locate_spec(
                self.parts(),
                starts_upto(self.parts(), self.parts().len() as int),
                offset,
            ),
            self.text() == joined_upto(self.parts(), self.parts().len() as int),
            self.parts().len() >= 1,
            all_fit(self.parts()),
    {
    }

    /// Converts an offset in the joined text to an offset in the file
    pub fn to_file_offset(&self, offset: usize) -> (r: usize)
        requires
            self.valid(),
            offset <= utf8_size(self.text()),
        ensures
            r == self.file_offset(offset as int),
    {
        let total = self.content.as_str().as_bytes().len();
        proof {
            lemma_locate_fits(line_views(self.lines@), offset as int);
        }
        locate(self.lines.as_slice(), self.starts.as_slice(), offset)
    }

    /// Returns the file range that `start..end` of the joined text came from
    pub fn span(&self, start: usize, end: usize) -> (r: (usize, usize))
        requires
            self.valid(),
            start <= end <= utf8_size(self.text()),
        ensures
            r == (self.file_offset(start as int) as usize, self.file_offset(end as int) as usize),
    {
        (self.to_file_offset(start), self.to_file_offset(end))
    }
}

/// The text a `doc` field contributes: all of it, or, with `trim`, all but
/// the line break that may end it
pub open spec fn trimmed_body(text: Seq<char>, trim: bool) -> Seq<char> {
    if trim {
        body_of(text)
    } else {
        text
    }
}

/// Appends the lines of `text`, which starts at byte `start` of the file,
/// each with the file offset of its first byte
pub fn push_lines<'a>(raw: &mut Vec<DocLine<'a>>, text: &'a str, start: usize, trim: bool)
    requires
        start + utf8_size(text@) <= usize::MAX,
    ensures
        line_views(final(raw)@) == line_views(old(raw)@) + body_lines(trimmed_body(text@, trim), start as int),
        forall|k: int| old(raw)@.len() <= k < final(raw)@.len() ==> #[trigger] line_fits(line_view(final(raw)@[k])),
        forall|k: int| 0 <= k < old(raw)@.len() ==> #[trigger] final(raw)@[k] == old(raw)@[k],
{
    let s = text_chars(text);
    let n = s.len();
    let mut b = n;
    if trim && b > 0 && s[b - 1] == '\n' {
        b -= 1;
    }
    if trim && b > 0 && s[b - 1] == '\r' {
        b -= 1;
    }
    let ghost body = s@.subrange(0, b as int);
    proof {
      if !trim {
        assert(body =~= text@);
      } else {
        let t = s@;
        assert(t.subrange(0, n as int) =~= t);
        lemma_strip_last(t, '\n');
        let a1 = match strip_suffix(t, seq!['\n']) {
            Some(x) => x,
            None => t,
        };
        lemma_strip_last(a1, '\r');
        let a2 = match strip_suffix(a1, seq!['\r']) {
            Some(x) => x,
            None => a1,
        };
        assert(a2 =~= body);
      }
    }
    assert(body == trimmed_body(text@, trim));
    let ghost ps = nl_pieces(body, 0);
    let ghost base = line_views(raw@);
    let ghost old_raw = raw@;
    let mut i: usize = 0;
    let ghost mut k: int = 0;
    proof {
        lemma_utf8_size_mono(s@, 0, b as int, n as int);
        assert(s@.subrange(0, n as int) =~= s@);
    }
    loop
        invariant
            s@ == text@,
            n == s@.len(),
            b <= n,
            body == s@.subrange(0, b as int),
            body == trimmed_body(text@, trim),
            ps == nl_pieces(body, 0),
            start + utf8_size(text@) <= usize::MAX,
            utf8_size(body) <= utf8_size(text@),
            i <= b,
            0 <= k <= ps.len(),
            ps.subrange(0, k) + nl_pieces(body, i as int) == ps,
            line_views(raw@) == base + ps.subrange(0, k).map_values(|p: (usize, usize)| body_line(body, start as int, p)),
            base == line_views(old_raw),
            raw@.len() >= old_raw.len(),
            forall|m: int| old_raw.len() <= m < raw@.len() ==> #[trigger] line_fits(line_view(raw@[m])),
            forall|m: int| 0 <= m < old_raw.len() ==> #[trigger] raw@[m] == old_raw[m],
            old(raw)@ == old_raw,
        decreases b - i,
    {
        proof {
            lemma_find_from(body, '\n', i as int, b as int);
            lemma_find_from(s@, '\n', i as int, b as int);
        }
        let e = match find_char(s.as_slice(), '\n', i, b) {
            Some(j) => j,
            None => b,
        };
        assert(find_from(body, '\n', i as int, b as int) == find_from(s@, '\n', i as int, b as int)) by {
            crate::text::lemma_find_from_shift(s@, '\n', 0, i as int, b as int);
        }
        assert(nl_pieces(body, i as int)[0] == (i, e));
        assert(ps[k] == (i, e)) by {
            assert(ps[k] == (ps.subrange(0, k) + nl_pieces(body, i as int))[k]);
        }
        let tend = if e > i && s[e - 1] == '\r' {
            e - 1
        } else {
            e
        };
        proof {
            lemma_utf8_size_split(s@, 0, i as int, tend as int);
            lemma_utf8_size_mono(s@, 0, tend as int, b as int);
            lemma_utf8_size_mono(s@, 0, b as int, n as int);
            assert(s@.subrange(0, n as int) =~= s@);
            assert(body.subrange(0, i as int) =~= s@.subrange(0, i as int));
            assert(body.subrange(i as int, e as int) =~= s@.subrange(i as int, e as int));
            let piece = body.subrange(i as int, e as int);
            lemma_strip_last(piece, '\r');
            if piece.len() > 0 {
                assert(piece[piece.len() - 1] == s@[e - 1]);
            }
            assert(strip_cr(piece) =~= s@.subrange(i as int, tend as int));
        }
        let offset = crate::text::byte_len(s.as_slice(), 0, i);
        let line = DocLine { text: slice_of(text, s.as_slice(), i, tend), offset: start + offset };
        let ghost before = line_views(raw@);
        raw.push(line);
        proof {
            k = k + 1;
            assert(ps.subrange(0, k) =~= ps.subrange(0, k - 1).push((i, e)));
            assert(line_views(raw@) =~= before.push(line_view(line)));
            assert(line_view(line) == body_line(body, start as int, (i, e)));
            assert(ps.subrange(0, k).map_values(|p: (usize, usize)| body_line(body, start as int, p)) =~= ps.subrange(0, k - 1).map_values(|p: (usize, usize)| body_line(body, start as int, p)).push(body_line(body, start as int, (i, e))));
            assert(line_views(raw@) =~= base + ps.subrange(0, k).map_values(|p: (usize, usize)| body_line(body, start as int, p)));
        }
        if e == b {
            assert(nl_pieces(body, i as int) =~= seq![(i, e)]);
            assert(ps.subrange(0, k) =~= ps);
            assert(line_views(raw@) == base + body_lines(trimmed_body(text@, trim), start as int));
            return;
        }
        assert(nl_pieces(body, i as int) =~= seq![(i, e)] + nl_pieces(body, e + 1));
        i = e + 1;
    }
}

/// Returns the lines the `doc` fields of `comments` hold, in order, each
/// with the file offset of its first byte
pub fn comment_lines_of<'a>(t: &'a SyntaxTree, comments: &[usize]) -> (r: Vec<DocLine<'a>>)
    requires
        t.valid(),
        forall|k: int| 0 <= k < comments@.len() ==> #[trigger] comments@[k] < t.size(),
    ensures
        line_views(r@) == raw_lines(*t, comments@, comments@.len() as int),
        all_fit(line_views(r@)),
{
    let mut raw: Vec<DocLine<'a>> = Vec::new();
    let mut k: usize = 0;
    while k < comments.len()
        invariant
            t.valid(),
            forall|m: int| 0 <= m < comments@.len() ==> #[trigger] comments@[m] < t.size(),
            k <= comments@.len(),
            line_views(raw@) == raw_lines(*t, comments@, k as int),
            all_fit(line_views(raw@)),
        decreases comments@.len() - k,
    {
        let c = comments[k];
        match child_by_field_name(t, c, "doc") {
            None => {},
            Some(d) => {
                let node = t.node(d);
                proof {
                    t.lemma_ranges(d as int);
                }
                let ghost before = raw@;
                push_lines(&mut raw, node.text.as_str(), node.start, true);
                assert forall|m: int| 0 <= m < line_views(raw@).len() implies #[trigger] line_fits(line_views(raw@)[m]) by {
                    if m < before.len() {
                        assert(raw@[m] == before[m]);
                        assert(line_fits(line_views(before)[m]));
                    } else {
                        assert(line_fits(line_view(raw@[m])));
                    }
                }
            },
        }
        k += 1;
    }
    raw
}

/// Joins a run of comment nodes into one Markdown document
///
/// Each node contributes the text of its `doc` field, which is what follows
/// the `///`, `//!`, `/**`, or `/*!` marker. For a line comment that field
/// also covers the newline, so the join drops it and puts one back between
/// lines. The join then strips the indentation every non-blank line shares,
/// or the space after `///` would read as an indented code block. Returns
/// [`None`] when no node carries such a field, which is the case for an
/// ordinary comment.
#[verifier::spinoff_prover]
pub fn from_comments<'a>(t: &'a SyntaxTree, comments: &[usize]) -> (r: Option<DocBlock<'a>>)
    requires
        t.valid(),
        forall|k: int| 0 <= k < comments@.len() ==> #[trigger] comments@[k] < t.size(),
    ensures
        match r {
            Some(block) => {
                &&& block.valid()
                &&& raw_lines(*t, comments@, comments@.len() as int).len() > 0
                &&& block.parts() == unindent_spec(raw_lines(*t, comments@, comments@.len() as int))
                &&& block.text() == joined_upto(block.parts(), block.parts().len() as int)
            },
            None => raw_lines(*t, comments@, comments@.len() as int).len() == 0,
        },
{
    let mut raw = comment_lines_of(t, comments);
    assert(line_views(raw@).len() == raw@.len());
    if raw.len() == 0 {
        return None;
    }
    let ghost before = line_views(raw@);
    unindent(&mut raw);
    assert(line_views(raw@).len() == before.len());
    assert(raw@.len() >= 1);
    let (content, starts) = join(raw.as_slice());
    let block = DocBlock { content, lines: raw, starts };
    assert(block.valid());
    assert(block.parts() == unindent_spec(raw_lines(*t, comments@, comments@.len() as int)));
    assert(block.text() == joined_upto(block.parts(), block.parts().len() as int));
    Some(block)
}

} // verus!
