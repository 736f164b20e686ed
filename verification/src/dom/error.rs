//! What can go wrong while parsing, and where.

use vstd::prelude::*;

verus! {

/// The ways in which a source text can break the grammar.
#[derive(Clone, Copy, Debug, PartialEq, Eq, Structural)]
pub enum ParseErrorKind {
    /// A character was required and the input had ended.
    UnexpectedEof,
    /// An element has to begin with `<`.
    ExpectedLt,
    /// An opening tag has to end with `>`.
    ExpectedGt,
    /// An attribute name has to be followed by `=`.
    ExpectedEquals,
    /// An attribute value has to begin with `"` or `'`.
    ExpectedQuote,
    /// A closing tag has to end with `>`.
    ExpectedCloseGt,
    /// The quote that opened an attribute value never comes again.
    UnterminatedAttrValue,
    /// The name in a closing tag is not the name of the element it closes.
    MismatchedClosingTag,
}

/// A failure to parse: what was wrong, and the offset, counted in characters
/// from the start of the source, at which the cursor stood when it was found.
#[derive(Clone, Copy, Debug, PartialEq, Eq, Structural)]
pub struct ParseError {
    pub kind: ParseErrorKind,
    pub offset: usize,
}

/// The line of the offset `n` in `s`, counted from zero: how many line feeds
/// stand before it.
pub open spec fn line_of(s: Seq<char>, n: int) -> int
    decreases n,
{
    if n <= 0 {
        0
    } else if s[n - 1] == '\n' {
        line_of(s, n - 1) + 1
    } else {
        line_of(s, n - 1)
    }
}

/// The column of the offset `n` in `s`, counted from zero: how many
/// characters stand between the start of its line and it.
pub open spec fn column_of(s: Seq<char>, n: int) -> int
    decreases n,
{
    if n <= 0 || s[n - 1] == '\n' {
        0
    } else {
        column_of(s, n - 1) + 1
    }
}

/// The offset `n`, or the length of `s` where `n` lies behind the end.
pub open spec fn within(s: Seq<char>, n: int) -> int {
    if n <= s.len() {
        n
    } else {
        s.len() as int
    }
}

impl ParseError {
    /// The line and the column of the error in `source`, the text that was
    /// parsed, both counted from zero. Lines end with a line feed. An offset
    /// behind the end of `source` counts as its end.
    pub fn line_column(&self, source: &str) -> (at: (usize, usize))
        ensures
            at.0 == line_of(source@, within(source@, self.offset as int)),
            at.1 == column_of(source@, within(source@, self.offset as int)),
    {
        let mut line: usize = 0;
        let mut column: usize = 0;
        let mut i: usize = 0;
        for c in it: source.chars()
            invariant
                it.seq() == source@,
                i == it.index(),
                i <= self.offset,
                line <= i,
                column <= i,
                line == line_of(source@, i as int),
                column == column_of(source@, i as int),
        {
            if i == self.offset {
                return (line, column);
            }
            if c == '\n' {
                line += 1;
                column = 0;
            } else {
                column += 1;
            }
            i += 1;
        }
        (line, column)
    }
}

} // verus!
