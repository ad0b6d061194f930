use vstd::prelude::*;
use crate::protocol::ids::LemmaId;

verus! {

/// A range of byte offsets into the original text.
#[derive(Debug, Clone, Copy, PartialEq, Eq, Structural)]
pub struct Span {
    pub start: usize,
    pub end: usize,
}

impl Span {
    pub fn new(start: usize, end: usize) -> (r: Self)
        ensures
            r.start == start,
            r.end == end,
    {
        Span { start, end }
    }

    /// The span does not end before it starts.
    pub open spec fn well_formed(&self) -> bool {
        self.start <= self.end
    }

    /// The number of bytes in the span.
    pub fn len(&self) -> (r: usize)
        requires
            self.well_formed(),
        ensures
            r == self.end - self.start,
    {
        self.end - self.start
    }
}

#[derive(Debug, Clone, Copy, PartialEq, Eq, Structural)]
pub enum TokenKind {
    /// A word found in the dictionary.
    Word(LemmaId),
    /// A word that the dictionary does not know.
    UnknownWord,
    /// A punctuation mark.
    Punctuation(char),
    /// Numbers and the like.
    Other,
}

#[derive(Debug, Clone, Copy)]
pub struct Token<'a> {
    pub span: Span,
    pub text: &'a str,
    pub kind: TokenKind,
}

} // verus!
