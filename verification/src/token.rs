//! Tokens and source positions.
//!
//! A token is a classified, positioned unit of lexical input: a literal, a
//! name, or a piece of fixed punctuation, together with the span of source
//! characters that produced it.

use vstd::prelude::*;

verus! {

/// A character's position in source code.
///
/// Both coordinates are 1-based.  The column of a character is the number
/// of characters consumed on its line up to and including itself; a line
/// terminator resets the column counter to 0 for the following line.
#[derive(Debug, Clone, Copy, PartialEq, Eq, Structural)]
pub struct Pos(
    /// Line number, starting from `1`.
    pub usize,
    /// Column number, starting from `1`.
    pub usize,
);

/// The mathematical value of a [`Pos`]: the same pair over `int`.
pub struct PosModel {
    pub line: int,
    pub col: int,
}

impl View for Pos {
    type V = PosModel;

    open spec fn view(&self) -> PosModel {
        PosModel { line: self.0 as int, col: self.1 as int }
    }
}

/// Source order of positions: by line, then by column within a line.
pub open spec fn pos_lt(a: PosModel, b: PosModel) -> bool {
    a.line < b.line || (a.line == b.line && a.col < b.col)
}

/// Source order of positions, allowing equality.
pub open spec fn pos_le(a: PosModel, b: PosModel) -> bool {
    a.line < b.line || (a.line == b.line && a.col <= b.col)
}

/// An ordered pair of positions delimiting exactly the characters that
/// produced a token or that are implicated in an error.  The end position
/// is inclusive.
#[derive(Debug, Clone, Copy, PartialEq, Eq, Structural)]
pub struct Span(
    /// Position of the first character.
    pub Pos,
    /// Position of the last character (inclusive).
    pub Pos,
);

/// The mathematical value of a [`Span`].
pub struct SpanModel {
    pub start: PosModel,
    pub end: PosModel,
}

impl View for Span {
    type V = SpanModel;

    open spec fn view(&self) -> SpanModel {
        SpanModel { start: self.0@, end: self.1@ }
    }
}

/// Various kinds of tokens.
///
/// The variants fall into three groups: literals (integer, float,
/// character, string, unit), names (one variant covering both alphabetic
/// and symbolic identifiers; deciding which spellings are keywords or
/// operators is deferred to consumers, see [`crate::sym_table::OpTable`]),
/// and fixed punctuation.
#[derive(Debug, Clone, PartialEq)]
pub enum TokenKind {
    /// Integer literal.
    IntLit(
        /// Value of the literal.
        i64,
    ),
    /// Floating-point number literal.  The scanner carries the literal's
    /// decimal text with underscores removed (for example `1.25`); the
    /// numeric interpretation belongs to the consumer.
    FloatLit(
        /// Text of the literal: decimal digits with exactly one point.
        String,
    ),
    /// Character literal.
    CharLit(
        /// Value of the literal.
        char,
    ),
    /// String literal.
    StrLit(
        /// Decoded value of the literal.
        String,
    ),
    /// The two-character empty/"unit" literal `()`.
    UnitLit,
    /// Names: alphabetic and symbolic identifiers alike.
    Name(
        /// Spelling of the name.
        String,
    ),
    /// `(` (left parenthesis).
    Lp,
    /// `)` (right parenthesis).
    Rp,
    /// `[` (left bracket).
    Lb,
    /// `]` (right bracket).
    Rb,
    /// `{` (left curly brace).
    Lc,
    /// `}` (right curly brace).
    Rc,
    /// `,`.
    Comma,
    /// Statement separator: `;`, or a line terminator closing a line that
    /// produced at least one token.
    ExprEnd,
}

/// The mathematical value of a [`TokenKind`], with sequences of characters
/// in place of strings.
pub enum KindModel {
    Int(int),
    Float(Seq<char>),
    Char(char),
    Str(Seq<char>),
    Unit,
    Name(Seq<char>),
    Lp,
    Rp,
    Lb,
    Rb,
    Lc,
    Rc,
    Comma,
    ExprEnd,
}

impl View for TokenKind {
    type V = KindModel;

    open spec fn view(&self) -> KindModel {
        match self {
            TokenKind::IntLit(v) => KindModel::Int(*v as int),
            TokenKind::FloatLit(t) => KindModel::Float(t@),
            TokenKind::CharLit(c) => KindModel::Char(*c),
            TokenKind::StrLit(s) => KindModel::Str(s@),
            TokenKind::UnitLit => KindModel::Unit,
            TokenKind::Name(n) => KindModel::Name(n@),
            TokenKind::Lp => KindModel::Lp,
            TokenKind::Rp => KindModel::Rp,
            TokenKind::Lb => KindModel::Lb,
            TokenKind::Rb => KindModel::Rb,
            TokenKind::Lc => KindModel::Lc,
            TokenKind::Rc => KindModel::Rc,
            TokenKind::Comma => KindModel::Comma,
            TokenKind::ExprEnd => KindModel::ExprEnd,
        }
    }
}

/// A token of Lynx source code: a kind together with the span of the
/// characters that produced it.
#[derive(Debug, Clone, PartialEq)]
pub struct Token(
    /// Kind of the token.
    pub TokenKind,
    /// Span of the token.
    pub Span,
);

/// The mathematical value of a [`Token`].
pub struct TokenModel {
    pub kind: KindModel,
    pub span: SpanModel,
}

impl View for Token {
    type V = TokenModel;

    open spec fn view(&self) -> TokenModel {
        TokenModel { kind: self.0@, span: self.1@ }
    }
}

} // verus!
