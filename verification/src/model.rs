//! The reference model of the scanner.
//!
//! Everything the scanner does is defined here once, as functions from the
//! source sequence and a cursor state to the next state and outcome.  The
//! executable scanner in [`crate::lexer`] is proved to compute exactly
//! these functions, and the general laws in [`crate::laws`] are proved
//! about them.
//!
//! The cursor state carries the index of the next unconsumed character,
//! the 1-based line and column of the last consumed character (column 0
//! right after a line terminator or at the very start), and whether the
//! current line has produced a token yet.  Consuming an in-line character
//! advances the column; consuming a line terminator advances the line and
//! resets the column.
//!
//! A line terminator is significant: it closes the current statement.  It
//! yields a separator token exactly when the line it ends produced at
//! least one token; on blank or comment-only lines it is consumed
//! silently, so that whitespace-only input scans to an empty sequence.

use vstd::prelude::*;

use crate::classify::digit_value;
use crate::classify::is_alpha_cont;
use crate::classify::is_alpha_start;
use crate::classify::is_base_digit;
use crate::classify::is_digit_char;
use crate::classify::is_hex_digit_char;
use crate::classify::is_sym_char;
use crate::classify::is_ws_char;
use crate::classify::valid_scalar;
use crate::error::ErrorModel;
use crate::token::KindModel;
use crate::token::PosModel;
use crate::token::SpanModel;
use crate::token::TokenModel;

verus! {

/// The scanner's cursor state.
pub struct LexState {
    /// Index of the next unconsumed character.
    pub idx: int,
    /// Line of the last consumed character, 1-based.
    pub line: int,
    /// Column of the last consumed character; 0 right after a line
    /// terminator or at the very start.
    pub col: int,
    /// Whether the current line has produced a token.
    pub started: bool,
}

/// The state a scanner starts in.
pub open spec fn init_state() -> LexState {
    LexState { idx: 0, line: 1, col: 0, started: false }
}

/// Bounds that every reachable scanner state satisfies.
pub open spec fn st_wf(src: Seq<char>, st: LexState) -> bool {
    &&& 0 <= st.idx <= src.len()
    &&& 1 <= st.line <= st.idx + 1
    &&& 0 <= st.col <= st.idx
}

/// The position of the last consumed character.
pub open spec fn st_pos(st: LexState) -> PosModel {
    PosModel { line: st.line, col: st.col }
}

/// The position that the next consumed character will have if it is no
/// line terminator; a line terminator itself also occupies this position.
pub open spec fn char_pos(st: LexState) -> PosModel {
    PosModel { line: st.line, col: st.col + 1 }
}

/// The same state with the line-has-tokens flag replaced.
pub open spec fn with_started(st: LexState, b: bool) -> LexState {
    LexState { idx: st.idx, line: st.line, col: st.col, started: b }
}

/// Consuming one character: the column advances within the line, or the
/// line advances and the column resets on a line terminator.
pub open spec fn adv(st: LexState, c: char) -> LexState {
    if c == '\n' {
        LexState { idx: st.idx + 1, line: st.line + 1, col: 0, started: st.started }
    } else {
        LexState { idx: st.idx + 1, line: st.line, col: st.col + 1, started: st.started }
    }
}

/// One outcome of asking the scanner for the next token: a token, an
/// error, or the end of the input.
pub enum Lexed {
    Tok(TokenModel),
    Bad(ErrorModel),
    End,
}

/// The outcome of one scanner step together with the state it leaves.
pub struct Step {
    pub st: LexState,
    pub out: Lexed,
}

/// Skips the run of whitespace characters that are not line terminators.
pub open spec fn spec_skip_ws(src: Seq<char>, st: LexState) -> LexState
    decreases src.len() - st.idx,
{
    if 0 <= st.idx && st.idx < src.len() && is_ws_char(src[st.idx]) && src[st.idx] != '\n' {
        spec_skip_ws(src, adv(st, src[st.idx]))
    } else {
        st
    }
}

/// Skips the rest of the physical line; the terminator itself is left for
/// re-classification as its own token.
pub open spec fn spec_skip_comment(src: Seq<char>, st: LexState) -> LexState
    decreases src.len() - st.idx,
{
    if 0 <= st.idx && st.idx < src.len() && src[st.idx] != '\n' {
        spec_skip_comment(src, adv(st, src[st.idx]))
    } else {
        st
    }
}

/// The outcome of decoding one escape sequence: the decoded character, a
/// malformed escape with the span to report, or the input ending
/// mid-escape.
pub enum EscOut {
    Ch(LexState, char),
    Bad(LexState, SpanModel),
    Eof(LexState),
}

/// Decodes the hex-digit part of a `\u{...}` escape, after the opening
/// brace.  One or more hex digits must follow, then the closing brace, and
/// the accumulated value must be a Unicode scalar value.
pub open spec fn spec_escape_hex(
    src: Seq<char>,
    st: LexState,
    esc_start: PosModel,
    val: int,
    ndigits: int,
) -> EscOut
    decreases src.len() - st.idx,
{
    if !(0 <= st.idx && st.idx < src.len()) {
        EscOut::Eof(st)
    } else {
        let c = src[st.idx];
        let st1 = adv(st, c);
        if is_hex_digit_char(c) {
            spec_escape_hex(src, st1, esc_start, 16 * val + digit_value(c), ndigits + 1)
        } else if c == '}' {
            if ndigits >= 1 && valid_scalar(val) {
                EscOut::Ch(st1, (val as u32) as char)
            } else {
                EscOut::Bad(st1, SpanModel { start: esc_start, end: st_pos(st1) })
            }
        } else {
            EscOut::Bad(st1, SpanModel { start: esc_start, end: st_pos(st1) })
        }
    }
}

/// Decodes one escape sequence; `st` stands right after the backslash,
/// whose position is `esc_start`.  The table: `n`, `r`, `t`, `\`, `0`, the
/// two quotes, and the Unicode form `u{...}`.
pub open spec fn spec_escape(src: Seq<char>, st: LexState, esc_start: PosModel) -> EscOut {
    if !(0 <= st.idx && st.idx < src.len()) {
        EscOut::Eof(st)
    } else {
        let c = src[st.idx];
        let st1 = adv(st, c);
        if c == 'n' {
            EscOut::Ch(st1, '\n')
        } else if c == 'r' {
            EscOut::Ch(st1, '\r')
        } else if c == 't' {
            EscOut::Ch(st1, '\t')
        } else if c == '\\' {
            EscOut::Ch(st1, '\\')
        } else if c == '0' {
            EscOut::Ch(st1, '\0')
        } else if c == '\'' {
            EscOut::Ch(st1, '\'')
        } else if c == '"' {
            EscOut::Ch(st1, '"')
        } else if c == 'u' {
            if !(st1.idx < src.len()) {
                EscOut::Eof(st1)
            } else {
                let c2 = src[st1.idx];
                let st2 = adv(st1, c2);
                if c2 == '{' {
                    spec_escape_hex(src, st2, esc_start, 0, 0)
                } else {
                    EscOut::Bad(st2, SpanModel { start: esc_start, end: st_pos(st2) })
                }
            }
        } else {
            EscOut::Bad(st1, SpanModel { start: esc_start, end: st_pos(st1) })
        }
    }
}

/// Bounds and progress of [`spec_escape_hex`].
pub proof fn lemma_escape_hex(
    src: Seq<char>,
    st: LexState,
    esc_start: PosModel,
    val: int,
    ndigits: int,
)
    requires
        0 <= st.idx <= src.len(),
    ensures
        ({
            let r = spec_escape_hex(src, st, esc_start, val, ndigits);
            match r {
                EscOut::Ch(st2, _) => st.idx < st2.idx <= src.len() && st2.started == st.started
                    && (st_wf(src, st) ==> st_wf(src, st2)),
                EscOut::Bad(st2, _) => st.idx < st2.idx <= src.len() && st2.started == st.started
                    && (st_wf(src, st) ==> st_wf(src, st2)),
                EscOut::Eof(st2) => st.idx <= st2.idx && st2.idx == src.len() && st2.started
                    == st.started && (st_wf(src, st) ==> st_wf(src, st2)),
            }
        }),
    decreases src.len() - st.idx,
{
    if 0 <= st.idx && st.idx < src.len() {
        let c = src[st.idx];
        if is_hex_digit_char(c) {
            lemma_escape_hex(src, adv(st, c), esc_start, 16 * val + digit_value(c), ndigits + 1);
        }
    }
}

/// Bounds and progress of [`spec_escape`].
pub proof fn lemma_escape(src: Seq<char>, st: LexState, esc_start: PosModel)
    requires
        0 <= st.idx <= src.len(),
    ensures
        ({
            let r = spec_escape(src, st, esc_start);
            match r {
                EscOut::Ch(st2, _) => st.idx < st2.idx <= src.len() && st2.started == st.started
                    && (st_wf(src, st) ==> st_wf(src, st2)),
                EscOut::Bad(st2, _) => st.idx < st2.idx <= src.len() && st2.started == st.started
                    && (st_wf(src, st) ==> st_wf(src, st2)),
                EscOut::Eof(st2) => st.idx <= st2.idx && st2.idx == src.len() && st2.started
                    == st.started && (st_wf(src, st) ==> st_wf(src, st2)),
            }
        }),
{
    if 0 <= st.idx && st.idx < src.len() {
        let c = src[st.idx];
        let st1 = adv(st, c);
        if c == 'u' && st1.idx < src.len() && src[st1.idx] == '{' {
            lemma_escape_hex(src, adv(st1, src[st1.idx]), esc_start, 0, 0);
        }
    }
}

/// The outcome of the shared literal-decoding loop: the accumulated
/// characters and the closing quote's position, or a failure.
pub enum LitOut {
    Done(LexState, Seq<char>, PosModel),
    Fail(LexState, ErrorModel),
}

/// The decoding loop shared by character and string literals,
/// parameterized by the terminating quote.  `st` stands right after the
/// opening quote, whose position is `lit_start`.  Raw line breaks inside
/// the literal are taken as content.
pub open spec fn spec_lit_body(
    src: Seq<char>,
    st: LexState,
    quote: char,
    lit_start: PosModel,
    acc: Seq<char>,
) -> LitOut
    decreases src.len() - st.idx,
{
    if !(0 <= st.idx && st.idx < src.len()) {
        LitOut::Fail(
            st,
            ErrorModel::UnterminatedCharOrStrLit(SpanModel { start: lit_start, end: st_pos(st) }),
        )
    } else {
        let c = src[st.idx];
        let st1 = adv(st, c);
        if c == quote {
            LitOut::Done(st1, acc, st_pos(st1))
        } else if c == '\\' {
            let esc_start = st_pos(st1);
            match spec_escape(src, st1, esc_start) {
                EscOut::Ch(st2, ch) => {
                    proof {
                        lemma_escape(src, st1, esc_start);
                    }
                    spec_lit_body(src, st2, quote, lit_start, acc.push(ch))
                },
                EscOut::Bad(st2, span) => LitOut::Fail(st2, ErrorModel::UnknownEscapeSeq(span)),
                EscOut::Eof(st2) => LitOut::Fail(
                    st2,
                    ErrorModel::UnterminatedCharOrStrLit(
                        SpanModel { start: lit_start, end: st_pos(st2) },
                    ),
                ),
            }
        } else {
            spec_lit_body(src, st1, quote, lit_start, acc.push(c))
        }
    }
}

/// Bounds and progress of [`spec_lit_body`].
pub proof fn lemma_lit_body(
    src: Seq<char>,
    st: LexState,
    quote: char,
    lit_start: PosModel,
    acc: Seq<char>,
)
    requires
        0 <= st.idx <= src.len(),
    ensures
        ({
            let r = spec_lit_body(src, st, quote, lit_start, acc);
            match r {
                LitOut::Done(st2, _, _) => st.idx < st2.idx <= src.len() && st2.started
                    == st.started && (st_wf(src, st) ==> st_wf(src, st2)),
                LitOut::Fail(st2, _) => st.idx <= st2.idx <= src.len() && st2.started == st.started
                    && (st_wf(src, st) ==> st_wf(src, st2)),
            }
        }),
    decreases src.len() - st.idx,
{
    if 0 <= st.idx && st.idx < src.len() {
        let c = src[st.idx];
        let st1 = adv(st, c);
        if c == quote {
        } else if c == '\\' {
            let esc_start = st_pos(st1);
            lemma_escape(src, st1, esc_start);
            match spec_escape(src, st1, esc_start) {
                EscOut::Ch(st2, ch) => {
                    lemma_lit_body(src, st2, quote, lit_start, acc.push(ch));
                },
                _ => {},
            }
        } else {
            lemma_lit_body(src, st1, quote, lit_start, acc.push(c));
        }
    }
}

/// Lexes a character literal; `st` stands at the opening quote.  Exactly
/// one decoded character must stand between the quotes.
pub open spec fn spec_char_lit(src: Seq<char>, st: LexState) -> Step {
    let st1 = adv(st, '\'');
    let start = st_pos(st1);
    match spec_lit_body(src, st1, '\'', start, Seq::empty()) {
        LitOut::Done(st2, acc, endp) => {
            let span = SpanModel { start, end: endp };
            if acc.len() == 0 {
                Step { st: st2, out: Lexed::Bad(ErrorModel::EmptyCharLit(span)) }
            } else if acc.len() == 1 {
                Step {
                    st: with_started(st2, true),
                    out: Lexed::Tok(TokenModel { kind: KindModel::Char(acc[0]), span }),
                }
            } else {
                Step { st: st2, out: Lexed::Bad(ErrorModel::MultipleCharsInCharLit(span)) }
            }
        },
        LitOut::Fail(st2, e) => Step { st: st2, out: Lexed::Bad(e) },
    }
}

/// Lexes a string literal; `st` stands at the opening quote.
pub open spec fn spec_str_lit(src: Seq<char>, st: LexState) -> Step {
    let st1 = adv(st, '"');
    let start = st_pos(st1);
    match spec_lit_body(src, st1, '"', start, Seq::empty()) {
        LitOut::Done(st2, acc, endp) => Step {
            st: with_started(st2, true),
            out: Lexed::Tok(
                TokenModel { kind: KindModel::Str(acc), span: SpanModel { start, end: endp } },
            ),
        },
        LitOut::Fail(st2, e) => Step { st: st2, out: Lexed::Bad(e) },
    }
}

/// Takes the rest of the physical line verbatim.
pub open spec fn spec_raw_body(src: Seq<char>, st: LexState, acc: Seq<char>) -> (LexState, Seq<
    char,
>)
    decreases src.len() - st.idx,
{
    if 0 <= st.idx && st.idx < src.len() && src[st.idx] != '\n' {
        spec_raw_body(src, adv(st, src[st.idx]), acc.push(src[st.idx]))
    } else {
        (st, acc)
    }
}

/// Lexes a raw string literal; `st` stands at the first of the two
/// backslashes.  The rest of the physical line, with no escape
/// processing, is the string's content; the form is bounded by the line
/// and so cannot be unterminated.
pub open spec fn spec_raw_lit(src: Seq<char>, st: LexState) -> Step {
    let st1 = adv(st, '\\');
    let start = st_pos(st1);
    let st2 = adv(st1, '\\');
    let (st3, s) = spec_raw_body(src, st2, Seq::empty());
    Step {
        st: with_started(st3, true),
        out: Lexed::Tok(
            TokenModel { kind: KindModel::Str(s), span: SpanModel { start, end: st_pos(st3) } },
        ),
    }
}

/// The value of a digit string read in the given base.
pub open spec fn digits_val(s: Seq<char>, base: int) -> int
    decreases s.len(),
{
    if s.len() == 0 {
        0
    } else {
        base * digits_val(s.drop_last(), base) + digit_value(s.last())
    }
}

/// A digit string with its underscore separators removed.
pub open spec fn strip_underscores(s: Seq<char>) -> Seq<char>
    decreases s.len(),
{
    if s.len() == 0 {
        Seq::empty()
    } else if s.first() == '_' {
        strip_underscores(s.drop_first())
    } else {
        seq![s.first()] + strip_underscores(s.drop_first())
    }
}

/// Whether `c`, standing immediately after a leading `0`, names a base.
pub open spec fn is_base_prefix(c: char) -> bool {
    c == 'x' || c == 'X' || c == 'b' || c == 'B' || c == 'o' || c == 'O'
}

/// The base a prefix character names.
pub open spec fn base_of(c: char) -> int {
    if c == 'x' || c == 'X' {
        16
    } else if c == 'o' || c == 'O' {
        8
    } else {
        2
    }
}

/// Scans the digit run of a number literal.  Digits of the base are
/// accumulated; underscores are dropped; one decimal point is accepted in
/// base 10 only and kept in the accumulated text; any other character
/// ends the run without being consumed.
pub open spec fn spec_digit_run(
    src: Seq<char>,
    st: LexState,
    base: int,
    seen_dot: bool,
    acc: Seq<char>,
) -> (LexState, Seq<char>, bool)
    decreases src.len() - st.idx,
{
    if !(0 <= st.idx && st.idx < src.len()) {
        (st, acc, seen_dot)
    } else {
        let c = src[st.idx];
        if is_base_digit(c, base) {
            spec_digit_run(src, adv(st, c), base, seen_dot, acc.push(c))
        } else if c == '_' {
            spec_digit_run(src, adv(st, c), base, seen_dot, acc)
        } else if c == '.' && base == 10 && !seen_dot {
            spec_digit_run(src, adv(st, c), base, true, acc.push(c))
        } else {
            (st, acc, seen_dot)
        }
    }
}

/// Lexes a number literal; `st` stands at the first digit.  A leading `0`
/// followed immediately by a base prefix switches to that base, with the
/// prefix excluded from the digits.  A literal with a decimal point is a
/// float and carries its cleaned text; otherwise the digit string is
/// parsed in the base, and an empty digit string or a value beyond
/// `i64::MAX` is an invalid format.
pub open spec fn spec_num_lit(src: Seq<char>, st: LexState) -> Step {
    let c0 = src[st.idx];
    let st1 = adv(st, c0);
    let start = st_pos(st1);
    if c0 == '0' && st1.idx < src.len() && is_base_prefix(src[st1.idx]) {
        let base = base_of(src[st1.idx]);
        let st2 = adv(st1, src[st1.idx]);
        let (st3, digits, seen_dot) = spec_digit_run(src, st2, base, false, Seq::empty());
        let span = SpanModel { start, end: st_pos(st3) };
        if digits.len() == 0 || digits_val(digits, base) > i64::MAX as int {
            Step { st: st3, out: Lexed::Bad(ErrorModel::InvalidNumLitFormat(span)) }
        } else {
            Step {
                st: with_started(st3, true),
                out: Lexed::Tok(TokenModel { kind: KindModel::Int(digits_val(digits, base)), span }),
            }
        }
    } else {
        let (st3, digits, seen_dot) = spec_digit_run(src, st1, 10, false, seq![c0]);
        let span = SpanModel { start, end: st_pos(st3) };
        if seen_dot {
            Step {
                st: with_started(st3, true),
                out: Lexed::Tok(TokenModel { kind: KindModel::Float(digits), span }),
            }
        } else if digits_val(digits, 10) > i64::MAX as int {
            Step { st: st3, out: Lexed::Bad(ErrorModel::InvalidNumLitFormat(span)) }
        } else {
            Step {
                st: with_started(st3, true),
                out: Lexed::Tok(TokenModel { kind: KindModel::Int(digits_val(digits, 10)), span }),
            }
        }
    }
}

/// Scans the continuation of an alphabetic name.
pub open spec fn spec_alpha_run(src: Seq<char>, st: LexState, acc: Seq<char>) -> (LexState, Seq<
    char,
>)
    decreases src.len() - st.idx,
{
    if 0 <= st.idx && st.idx < src.len() && is_alpha_cont(src[st.idx]) {
        spec_alpha_run(src, adv(st, src[st.idx]), acc.push(src[st.idx]))
    } else {
        (st, acc)
    }
}

/// Lexes an alphabetic name; `st` stands at its first character.
pub open spec fn spec_alpha_lit(src: Seq<char>, st: LexState) -> Step {
    let c0 = src[st.idx];
    let st1 = adv(st, c0);
    let start = st_pos(st1);
    let (st2, name) = spec_alpha_run(src, st1, seq![c0]);
    Step {
        st: with_started(st2, true),
        out: Lexed::Tok(
            TokenModel { kind: KindModel::Name(name), span: SpanModel { start, end: st_pos(st2) } },
        ),
    }
}

/// Scans the continuation of a symbolic name.
pub open spec fn spec_sym_run(src: Seq<char>, st: LexState, acc: Seq<char>) -> (LexState, Seq<
    char,
>)
    decreases src.len() - st.idx,
{
    if 0 <= st.idx && st.idx < src.len() && is_sym_char(src[st.idx]) {
        spec_sym_run(src, adv(st, src[st.idx]), acc.push(src[st.idx]))
    } else {
        (st, acc)
    }
}

/// Lexes a symbolic name; `st` stands at its first character.
pub open spec fn spec_sym_lit(src: Seq<char>, st: LexState) -> Step {
    let c0 = src[st.idx];
    let st1 = adv(st, c0);
    let start = st_pos(st1);
    let (st2, name) = spec_sym_run(src, st1, seq![c0]);
    Step {
        st: with_started(st2, true),
        out: Lexed::Tok(
            TokenModel { kind: KindModel::Name(name), span: SpanModel { start, end: st_pos(st2) } },
        ),
    }
}

/// The reserved single-character punctuation.
pub open spec fn is_punct_char(c: char) -> bool {
    c == '(' || c == ')' || c == '[' || c == ']' || c == '{' || c == '}' || c == ',' || c == ';'
}

/// The token kind of one punctuation character.
pub open spec fn punct_kind(c: char) -> KindModel {
    if c == '(' {
        KindModel::Lp
    } else if c == ')' {
        KindModel::Rp
    } else if c == '[' {
        KindModel::Lb
    } else if c == ']' {
        KindModel::Rb
    } else if c == '{' {
        KindModel::Lc
    } else if c == '}' {
        KindModel::Rc
    } else if c == ',' {
        KindModel::Comma
    } else {
        KindModel::ExprEnd
    }
}

/// Lexes one punctuation character; `(` followed immediately by `)` fuses
/// into the unit literal.
pub open spec fn spec_punct(src: Seq<char>, st: LexState) -> Step {
    let c = src[st.idx];
    if c == '(' && st.idx + 1 < src.len() && src[st.idx + 1] == ')' {
        let st1 = adv(st, '(');
        let start = st_pos(st1);
        let st2 = adv(st1, ')');
        Step {
            st: with_started(st2, true),
            out: Lexed::Tok(
                TokenModel {
                    kind: KindModel::Unit,
                    span: SpanModel { start, end: st_pos(st2) },
                },
            ),
        }
    } else {
        let st1 = adv(st, c);
        let p = st_pos(st1);
        Step {
            st: with_started(st1, true),
            out: Lexed::Tok(TokenModel { kind: punct_kind(c), span: SpanModel { start: p, end: p } }),
        }
    }
}

/// Bounds and progress of [`spec_skip_ws`].
pub proof fn lemma_skip_ws(src: Seq<char>, st: LexState)
    requires
        0 <= st.idx <= src.len(),
    ensures
        ({
            let r = spec_skip_ws(src, st);
            &&& st.idx <= r.idx <= src.len()
            &&& r.started == st.started
            &&& (st_wf(src, st) ==> st_wf(src, r))
            &&& (r.idx == src.len() || !(is_ws_char(src[r.idx]) && src[r.idx] != '\n'))
        }),
    decreases src.len() - st.idx,
{
    if 0 <= st.idx && st.idx < src.len() && is_ws_char(src[st.idx]) && src[st.idx] != '\n' {
        lemma_skip_ws(src, adv(st, src[st.idx]));
    }
}

/// Bounds and progress of [`spec_skip_comment`].
pub proof fn lemma_skip_comment(src: Seq<char>, st: LexState)
    requires
        0 <= st.idx <= src.len(),
    ensures
        ({
            let r = spec_skip_comment(src, st);
            &&& st.idx <= r.idx <= src.len()
            &&& r.started == st.started
            &&& (st_wf(src, st) ==> st_wf(src, r))
            &&& (r.idx == src.len() || src[r.idx] == '\n')
            &&& (st.idx < src.len() && src[st.idx] != '\n' ==> st.idx < r.idx)
        }),
    decreases src.len() - st.idx,
{
    if 0 <= st.idx && st.idx < src.len() && src[st.idx] != '\n' {
        lemma_skip_comment(src, adv(st, src[st.idx]));
    }
}

/// Bounds and progress of [`spec_raw_body`].
pub proof fn lemma_raw_body(src: Seq<char>, st: LexState, acc: Seq<char>)
    requires
        0 <= st.idx <= src.len(),
    ensures
        ({
            let (st2, _) = spec_raw_body(src, st, acc);
            st.idx <= st2.idx <= src.len() && st2.started == st.started && (st_wf(src, st)
                ==> st_wf(src, st2))
        }),
    decreases src.len() - st.idx,
{
    if 0 <= st.idx && st.idx < src.len() && src[st.idx] != '\n' {
        lemma_raw_body(src, adv(st, src[st.idx]), acc.push(src[st.idx]));
    }
}

/// Bounds and progress of [`spec_digit_run`].
pub proof fn lemma_digit_run(
    src: Seq<char>,
    st: LexState,
    base: int,
    seen_dot: bool,
    acc: Seq<char>,
)
    requires
        0 <= st.idx <= src.len(),
    ensures
        ({
            let (st2, _, _) = spec_digit_run(src, st, base, seen_dot, acc);
            st.idx <= st2.idx <= src.len() && st2.started == st.started && (st_wf(src, st)
                ==> st_wf(src, st2))
        }),
    decreases src.len() - st.idx,
{
    if 0 <= st.idx && st.idx < src.len() {
        let c = src[st.idx];
        if is_base_digit(c, base) {
            lemma_digit_run(src, adv(st, c), base, seen_dot, acc.push(c));
        } else if c == '_' {
            lemma_digit_run(src, adv(st, c), base, seen_dot, acc);
        } else if c == '.' && base == 10 && !seen_dot {
            lemma_digit_run(src, adv(st, c), base, true, acc.push(c));
        }
    }
}

/// A digit run outside base 10 never consumes a decimal point.
pub proof fn lemma_digit_run_no_dot(
    src: Seq<char>,
    st: LexState,
    base: int,
    seen_dot: bool,
    acc: Seq<char>,
)
    requires
        base != 10,
    ensures
        spec_digit_run(src, st, base, seen_dot, acc).2 == seen_dot,
    decreases src.len() - st.idx,
{
    if 0 <= st.idx && st.idx < src.len() {
        let c = src[st.idx];
        if is_base_digit(c, base) {
            lemma_digit_run_no_dot(src, adv(st, c), base, seen_dot, acc.push(c));
        } else if c == '_' {
            lemma_digit_run_no_dot(src, adv(st, c), base, seen_dot, acc);
        }
    }
}

/// Bounds and progress of [`spec_alpha_run`].
pub proof fn lemma_alpha_run(src: Seq<char>, st: LexState, acc: Seq<char>)
    requires
        0 <= st.idx <= src.len(),
    ensures
        ({
            let (st2, _) = spec_alpha_run(src, st, acc);
            st.idx <= st2.idx <= src.len() && st2.started == st.started && (st_wf(src, st)
                ==> st_wf(src, st2))
        }),
    decreases src.len() - st.idx,
{
    if 0 <= st.idx && st.idx < src.len() && is_alpha_cont(src[st.idx]) {
        lemma_alpha_run(src, adv(st, src[st.idx]), acc.push(src[st.idx]));
    }
}

/// Bounds and progress of [`spec_sym_run`].
pub proof fn lemma_sym_run(src: Seq<char>, st: LexState, acc: Seq<char>)
    requires
        0 <= st.idx <= src.len(),
    ensures
        ({
            let (st2, _) = spec_sym_run(src, st, acc);
            st.idx <= st2.idx <= src.len() && st2.started == st.started && (st_wf(src, st)
                ==> st_wf(src, st2))
        }),
    decreases src.len() - st.idx,
{
    if 0 <= st.idx && st.idx < src.len() && is_sym_char(src[st.idx]) {
        lemma_sym_run(src, adv(st, src[st.idx]), acc.push(src[st.idx]));
    }
}

/// One scanner step: skip insignificant input, classify the lookahead,
/// and delegate.  The line terminator is classified first; it can start
/// no other rule.  A comment skip and a silently consumed terminator on a
/// blank line continue with the next step, so one step always yields a
/// token, an error, or the end of the input.
pub open spec fn spec_next(src: Seq<char>, st: LexState) -> Step
    decreases src.len() - st.idx,
{
    if !(0 <= st.idx && st.idx <= src.len()) {
        Step { st, out: Lexed::End }
    } else {
        let st1 = spec_skip_ws(src, st);
        if !(st1.idx < src.len()) {
            Step { st: st1, out: Lexed::End }
        } else {
            let c = src[st1.idx];
            if c == '\n' {
                let tpos = char_pos(st1);
                let st2 = adv(st1, c);
                if st1.started {
                    Step {
                        st: with_started(st2, false),
                        out: Lexed::Tok(
                            TokenModel {
                                kind: KindModel::ExprEnd,
                                span: SpanModel { start: tpos, end: tpos },
                            },
                        ),
                    }
                } else {
                    proof {
                        lemma_skip_ws(src, st);
                    }
                    spec_next(src, st2)
                }
            } else if c == '-' && st1.idx + 1 < src.len() && src[st1.idx + 1] == '-' {
                let st2 = spec_skip_comment(src, st1);
                proof {
                    lemma_skip_ws(src, st);
                    lemma_skip_comment(src, st1);
                }
                spec_next(src, st2)
            } else if c == '\'' {
                spec_char_lit(src, st1)
            } else if c == '"' {
                spec_str_lit(src, st1)
            } else if is_digit_char(c) {
                spec_num_lit(src, st1)
            } else if is_alpha_start(c) {
                spec_alpha_lit(src, st1)
            } else if is_punct_char(c) {
                spec_punct(src, st1)
            } else if c == '\\' && st1.idx + 1 < src.len() && src[st1.idx + 1] == '\\' {
                spec_raw_lit(src, st1)
            } else if is_sym_char(c) {
                spec_sym_lit(src, st1)
            } else {
                let st2 = adv(st1, c);
                let p = st_pos(st2);
                Step {
                    st: st2,
                    out: Lexed::Bad(ErrorModel::UnexpectedChar(SpanModel { start: p, end: p })),
                }
            }
        }
    }
}

/// Bounds and progress of [`spec_next`]: a step never leaves the input,
/// consumes at least one character whenever it yields a token, and
/// preserves well-formedness.
pub proof fn lemma_next(src: Seq<char>, st: LexState)
    requires
        0 <= st.idx <= src.len(),
    ensures
        ({
            let step = spec_next(src, st);
            &&& st.idx <= step.st.idx <= src.len()
            &&& (step.out is Tok ==> st.idx < step.st.idx)
            &&& (st_wf(src, st) ==> st_wf(src, step.st))
        }),
    decreases src.len() - st.idx,
{
    lemma_skip_ws(src, st);
    let st1 = spec_skip_ws(src, st);
    if st1.idx < src.len() {
        let c = src[st1.idx];
        let st2 = adv(st1, c);
        if c == '\n' {
            if !st1.started {
                lemma_next(src, st2);
            }
        } else if c == '-' && st1.idx + 1 < src.len() && src[st1.idx + 1] == '-' {
            lemma_skip_comment(src, st1);
            lemma_next(src, spec_skip_comment(src, st1));
        } else if c == '\'' {
            lemma_lit_body(src, st2, '\'', st_pos(st2), Seq::empty());
        } else if c == '"' {
            lemma_lit_body(src, st2, '"', st_pos(st2), Seq::empty());
        } else if is_digit_char(c) {
            if c == '0' && st2.idx < src.len() && is_base_prefix(src[st2.idx]) {
                let st3 = adv(st2, src[st2.idx]);
                lemma_digit_run(src, st3, base_of(src[st2.idx]), false, Seq::empty());
            } else {
                lemma_digit_run(src, st2, 10, false, seq![c]);
            }
        } else if is_alpha_start(c) {
            lemma_alpha_run(src, st2, seq![c]);
        } else if is_punct_char(c) {
        } else if c == '\\' && st1.idx + 1 < src.len() && src[st1.idx + 1] == '\\' {
            lemma_raw_body(src, adv(st2, '\\'), Seq::empty());
        } else if is_sym_char(c) {
            lemma_sym_run(src, st2, seq![c]);
        }
    }
}

/// The whole source, fail-fast: the complete ordered token list, or the
/// first error encountered.
pub open spec fn spec_tokens(src: Seq<char>, st: LexState) -> Result<Seq<TokenModel>, ErrorModel>
    decreases src.len() - st.idx,
{
    if !(0 <= st.idx && st.idx <= src.len()) {
        Ok(Seq::empty())
    } else {
        let step = spec_next(src, st);
        match step.out {
            Lexed::End => Ok(Seq::empty()),
            Lexed::Bad(e) => Err(e),
            Lexed::Tok(t) => {
                proof {
                    lemma_next(src, st);
                }
                match spec_tokens(src, step.st) {
                    Ok(rest) => Ok(seq![t] + rest),
                    Err(e) => Err(e),
                }
            },
        }
    }
}

} // verus!
