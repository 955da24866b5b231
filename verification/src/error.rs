//! The lexical error taxonomy.
//!
//! Every error carries the span of the offending text, so a caller can
//! point at exact source coordinates.  All errors are returned as ordinary
//! values; the routine that detects the condition returns immediately
//! without producing a partial token for the failing span.

use vstd::prelude::*;

use crate::token::Span;
use crate::token::SpanModel;

verus! {

/// Lexical failure kinds, each carrying the span of the offending text.
#[derive(Debug, Clone, PartialEq)]
pub enum Error {
    /// A character literal with zero characters: `''`.
    EmptyCharLit(Span),
    /// A number literal whose digit string cannot be parsed in its base:
    /// a prefixed literal with no digits, or a value that overflows.
    InvalidNumLitFormat(Span),
    /// A character literal with more than one character, such as `'ab'`.
    MultipleCharsInCharLit(Span),
    /// A character that starts no lexical rule.
    UnexpectedChar(Span),
    /// An escape sequence outside the accepted table, a malformed `\u`
    /// form, or a `\u` code point that is no Unicode scalar value.  The
    /// span covers the backslash through the last character consumed
    /// while attempting to decode.
    UnknownEscapeSeq(Span),
    /// A character or string literal whose closing quote is missing when
    /// the input ends.  The span runs from the opening quote to the point
    /// of failure.
    UnterminatedCharOrStrLit(Span),
}

/// The mathematical value of an [`Error`].
pub enum ErrorModel {
    EmptyCharLit(SpanModel),
    InvalidNumLitFormat(SpanModel),
    MultipleCharsInCharLit(SpanModel),
    UnexpectedChar(SpanModel),
    UnknownEscapeSeq(SpanModel),
    UnterminatedCharOrStrLit(SpanModel),
}

impl View for Error {
    type V = ErrorModel;

    open spec fn view(&self) -> ErrorModel {
        match self {
            Error::EmptyCharLit(s) => ErrorModel::EmptyCharLit(s@),
            Error::InvalidNumLitFormat(s) => ErrorModel::InvalidNumLitFormat(s@),
            Error::MultipleCharsInCharLit(s) => ErrorModel::MultipleCharsInCharLit(s@),
            Error::UnexpectedChar(s) => ErrorModel::UnexpectedChar(s@),
            Error::UnknownEscapeSeq(s) => ErrorModel::UnknownEscapeSeq(s@),
            Error::UnterminatedCharOrStrLit(s) => ErrorModel::UnterminatedCharOrStrLit(s@),
        }
    }
}

} // verus!
