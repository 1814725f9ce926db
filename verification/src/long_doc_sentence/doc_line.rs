use vstd::prelude::*;

verus! {

/// One line of doc comment text, with the marker gone
///
/// A sentence often runs across several lines, so the reassembled prose has
/// offsets of its own. The file offset of each line lets a diagnostic point
/// at the sentence rather than at the whole comment.
#[derive(Copy, Clone, Debug)]
pub struct DocLine<'a> {
    text: &'a str,
    offset: usize,
}

impl<'a> DocLine<'a> {
    /// The characters of the line
    pub closed spec fn spec_text(&self) -> Seq<char> {
        self.text@
    }

    /// The byte offset of the line in the file
    pub closed spec fn spec_offset(&self) -> usize {
        self.offset
    }

    /// Creates a line holding `text`, which starts at `offset` in the file
    pub fn new(text: &'a str, offset: usize) -> (r: Self)
        ensures
            r.spec_text() == text@,
            r.spec_offset() == offset,
    {
        Self { text, offset }
    }

    /// Returns the text of the line
    pub fn text(&self) -> (r: &'a str)
        ensures
            r@ == self.spec_text(),
    {
        self.text
    }

    /// Returns the byte offset of the line in the file
    pub fn offset(&self) -> (r: usize)
        ensures
            r == self.spec_offset(),
    {
        self.offset
    }
}

} // verus!
