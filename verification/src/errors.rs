//! Errors reported while turning raw text into a configuration mapping.

use vstd::prelude::*;

verus! {

/// An error from parsing configuration or schema text.
#[derive(Debug)]
pub enum ParseError {
    /// Raw text could not be obtained (a file read or a remote fetch failed);
    /// carries a description supplied by the caller.
    Io(String),
    /// A non-ignorable line without an `=` separator, or (for schema text) a
    /// value whose type expression is not recognized — then the line number
    /// is 0, since schema type errors are not tracked per line.
    InvalidLine { line_number: usize, content: String },
    /// A value longer than the parser's ceiling; carries the measured length.
    ValueTooLong { line_number: usize, key: String, length: usize },
}

/// Mathematical mirror of [`ParseError`].
pub enum ParseErrorView {
    Io(Seq<char>),
    InvalidLine { line_number: int, content: Seq<char> },
    ValueTooLong { line_number: int, key: Seq<char>, length: int },
}

impl View for ParseError {
    type V = ParseErrorView;

    open spec fn view(&self) -> ParseErrorView {
        match self {
            ParseError::Io(s) => ParseErrorView::Io(s@),
            ParseError::InvalidLine { line_number, content } => ParseErrorView::InvalidLine {
                line_number: *line_number as int,
                content: content@,
            },
            ParseError::ValueTooLong { line_number, key, length } => ParseErrorView::ValueTooLong {
                line_number: *line_number as int,
                key: key@,
                length: *length as int,
            },
        }
    }
}

} // verus!
