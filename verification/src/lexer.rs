//! The executable scanner.
//!
//! [`Lexer`] owns the source buffer and the position counters; no other
//! component mutates them.  Each call of [`Lexer::next`] skips
//! insignificant input, classifies the lookahead, and yields one token or
//! one error, or signals the end of the input; its result is proved to be
//! exactly what the reference model in [`crate::model`] defines.

use vstd::prelude::*;

use vstd::string::StrSliceExecFns;

use crate::classify::base_digit;
use crate::classify::digit_char;
use crate::classify::digit_val;
use crate::classify::digit_value;
use crate::classify::is_digit_char;
use crate::classify::is_alpha_start;
use crate::classify::is_sym_char;
use crate::classify::sym_char;
use crate::classify::valid_scalar;
use crate::error::Error;
use crate::model::adv;
use crate::model::init_state;
use crate::model::lemma_escape;
use crate::model::spec_alpha_lit;
use crate::model::spec_alpha_run;
use crate::model::spec_char_lit;
use crate::model::spec_escape;
use crate::model::spec_escape_hex;
use crate::model::spec_lit_body;
use crate::model::spec_raw_body;
use crate::model::spec_raw_lit;
use crate::model::spec_skip_comment;
use crate::model::spec_skip_ws;
use crate::model::spec_str_lit;
use crate::model::spec_sym_lit;
use crate::model::spec_sym_run;
use crate::model::digits_val;
use crate::model::is_punct_char;
use crate::model::lemma_next;
use crate::model::lemma_digit_run_no_dot;
use crate::model::lemma_skip_comment;
use crate::model::lemma_skip_ws;
use crate::model::spec_digit_run;
use crate::model::spec_next;
use crate::model::spec_num_lit;
use crate::model::spec_punct;
use crate::model::spec_tokens;
use crate::model::st_pos;
use crate::model::st_wf;
use crate::model::EscOut;
use crate::model::Lexed;
use crate::model::LexState;
use crate::model::LitOut;
use crate::token::Pos;
use crate::token::Span;
use crate::token::Token;
use crate::token::TokenModel;
use crate::token::TokenKind;

verus! {

/// Relies on `String::push`: appends the given character to the end of
/// the string.
pub assume_specification[ String::push ](s: &mut String, c: char)
    ensures
        final(s)@ == old(s)@.push(c),
;

/// The outcome of decoding one escape sequence: the decoded character, a
/// malformed escape with its span, or the input ending mid-escape.
enum EscResult {
    Ch(char),
    Bad(Span),
    Eof,
}

/// How the running value of a digit scan relates to the digits read so
/// far: exact while the value fits an `i64`, and beyond `i64::MAX` exactly
/// when the digits' value is beyond it.
spec fn val_rel(digits: Seq<char>, v: u128, base: int) -> bool {
    let dv = digits_val(digits, base);
    &&& dv >= 0
    &&& (dv <= i64::MAX as int ==> v as int == dv)
    &&& (dv > i64::MAX as int ==> v as int > i64::MAX as int)
}

/// The scanner: a single stateful cursor over the source text.
pub struct Lexer {
    /// The source text, fully materialized before scanning begins.
    src: Vec<char>,
    /// Index of the next unconsumed character.
    idx: usize,
    /// Current line number, 1-based.
    line: usize,
    /// Column of the last consumed character on the current line.
    col: usize,
    /// Whether the current line has produced a token.
    started: bool,
}

impl Lexer {
    /// The source the scanner was built over.
    pub closed spec fn src(self) -> Seq<char> {
        self.src@
    }

    /// The scanner's cursor state, as the model sees it.
    pub closed spec fn st(self) -> LexState {
        LexState {
            idx: self.idx as int,
            line: self.line as int,
            col: self.col as int,
            started: self.started,
        }
    }

    /// The scanner's invariant: the cursor is inside the buffer and the
    /// position counters are bounded by it.
    pub closed spec fn wf(self) -> bool {
        st_wf(self.src@, self.st()) && self.src@.len() < usize::MAX
    }

    /// Creates a scanner over the given source characters.
    pub fn new(src: Vec<char>) -> (l: Lexer)
        requires
            src@.len() < usize::MAX,
        ensures
            l.wf(),
            l.src() == src@,
            l.st() == init_state(),
    {
        Lexer { src, idx: 0, line: 1, col: 0, started: false }
    }

    /// Consumes one character, advancing the position counters: the
    /// column within a line, or the line counter across a terminator.
    fn advance(&mut self)
        requires
            old(self).wf(),
            old(self).st().idx < old(self).src().len(),
        ensures
            final(self).wf(),
            final(self).src() == old(self).src(),
            final(self).st() == adv(old(self).st(), old(self).src()[old(self).st().idx]),
    {
        let c = self.src[self.idx];
        if c == '\n' {
            self.line = self.line + 1;
            self.col = 0;
        } else {
            self.col = self.col + 1;
        }
        self.idx = self.idx + 1;
    }

    /// The position of the last consumed character.
    fn pos(&self) -> (p: Pos)
        ensures
            p@ == st_pos(self.st()),
    {
        Pos(self.line, self.col)
    }

    /// Skips whitespace characters that are not line terminators; line
    /// terminators are significant and left for classification.
    fn skip_ws(&mut self)
        requires
            old(self).wf(),
        ensures
            final(self).wf(),
            final(self).src() == old(self).src(),
            final(self).st() == spec_skip_ws(old(self).src(), old(self).st()),
    {
        loop
            invariant
                self.wf(),
                self.src() == old(self).src(),
                spec_skip_ws(self.src(), self.st()) == spec_skip_ws(old(self).src(), old(self).st()),
            ensures
                final(self).wf(),
                final(self).src() == old(self).src(),
                final(self).st() == spec_skip_ws(old(self).src(), old(self).st()),
            decreases self.src().len() - self.st().idx,
        {
            if self.idx >= self.src.len() {
                assert(spec_skip_ws(self.src(), self.st()) == self.st());
                break ;
            }
            let c = self.src[self.idx];
            if !(c.is_whitespace() && c != '\n') {
                assert(spec_skip_ws(self.src(), self.st()) == self.st());
                break ;
            }
            self.advance();
        }
    }

    /// Skips the rest of the physical line after a `--` comment start;
    /// the terminator itself is re-classified afterward as its own token.
    fn skip_line_comment(&mut self)
        requires
            old(self).wf(),
        ensures
            final(self).wf(),
            final(self).src() == old(self).src(),
            final(self).st() == spec_skip_comment(old(self).src(), old(self).st()),
    {
        loop
            invariant
                self.wf(),
                self.src() == old(self).src(),
                spec_skip_comment(self.src(), self.st()) == spec_skip_comment(
                    old(self).src(),
                    old(self).st(),
                ),
            ensures
                final(self).wf(),
                final(self).src() == old(self).src(),
                final(self).st() == spec_skip_comment(old(self).src(), old(self).st()),
            decreases self.src().len() - self.st().idx,
        {
            if self.idx >= self.src.len() {
                assert(spec_skip_comment(self.src(), self.st()) == self.st());
                break ;
            }
            let c = self.src[self.idx];
            if c == '\n' {
                assert(spec_skip_comment(self.src(), self.st()) == self.st());
                break ;
            }
            self.advance();
        }
    }

    /// Decodes the hex-digit part of a `\u{...}` escape, after the
    /// opening brace was consumed.
    fn lex_escape_hex(&mut self, esc_start: Pos) -> (r: EscResult)
        requires
            old(self).wf(),
        ensures
            final(self).wf(),
            final(self).src() == old(self).src(),
            ({
                let m = spec_escape_hex(old(self).src(), old(self).st(), esc_start@, 0, 0);
                match r {
                    EscResult::Ch(c) => m == EscOut::Ch(final(self).st(), c),
                    EscResult::Bad(sp) => m == EscOut::Bad(final(self).st(), sp@),
                    EscResult::Eof => m == EscOut::Eof(final(self).st()),
                }
            }),
    {
        let mut vu: u32 = 0;
        let mut any = false;
        let ghost mut val: int = 0;
        let ghost mut nd: int = 0;
        loop
            invariant
                self.wf(),
                self.src() == old(self).src(),
                spec_escape_hex(self.src(), self.st(), esc_start@, val, nd) == spec_escape_hex(
                    old(self).src(),
                    old(self).st(),
                    esc_start@,
                    0,
                    0,
                ),
                0 <= val,
                val <= 0x10ffff ==> vu == val,
                val > 0x10ffff ==> vu > 0x10ffff,
                0 <= nd,
                any == (nd >= 1),
            decreases self.src().len() - self.st().idx,
        {
            if self.idx >= self.src.len() {
                return EscResult::Eof;
            }
            let c = self.src[self.idx];
            let u = c as u32;
            let is_hex = (0x30 <= u && u <= 0x39) || (0x41 <= u && u <= 0x46) || (0x61 <= u && u
                <= 0x66);
            self.advance();
            if is_hex {
                let d: u32 = if u <= 0x39 {
                    u - 0x30
                } else if u <= 0x46 {
                    u - 0x41 + 10
                } else {
                    u - 0x61 + 10
                };
                if vu <= 0x10ffff {
                    vu = vu * 16 + d;
                }
                any = true;
                proof {
                    val = 16 * val + crate::classify::digit_value(c);
                    nd = nd + 1;
                }
            } else if c == '}' {
                let ok = any && (vu < 0xd800 || (0xdfff < vu && vu <= 0x10ffff));
                if ok {
                    assert(valid_scalar(val) && val == vu);
                    let ch = char::from_u32(vu).unwrap();
                    return EscResult::Ch(ch);
                } else {
                    assert(!(nd >= 1 && valid_scalar(val)));
                    return EscResult::Bad(Span(esc_start, self.pos()));
                }
            } else {
                return EscResult::Bad(Span(esc_start, self.pos()));
            }
        }
    }

    /// Decodes one escape sequence; the backslash, at `esc_start`, was
    /// already consumed.
    fn lex_escape(&mut self, esc_start: Pos) -> (r: EscResult)
        requires
            old(self).wf(),
        ensures
            final(self).wf(),
            final(self).src() == old(self).src(),
            ({
                let m = spec_escape(old(self).src(), old(self).st(), esc_start@);
                match r {
                    EscResult::Ch(c) => m == EscOut::Ch(final(self).st(), c),
                    EscResult::Bad(sp) => m == EscOut::Bad(final(self).st(), sp@),
                    EscResult::Eof => m == EscOut::Eof(final(self).st()),
                }
            }),
    {
        if self.idx >= self.src.len() {
            return EscResult::Eof;
        }
        let c = self.src[self.idx];
        self.advance();
        if c == 'n' {
            EscResult::Ch('\n')
        } else if c == 'r' {
            EscResult::Ch('\r')
        } else if c == 't' {
            EscResult::Ch('\t')
        } else if c == '\\' {
            EscResult::Ch('\\')
        } else if c == '0' {
            EscResult::Ch('\0')
        } else if c == '\'' {
            EscResult::Ch('\'')
        } else if c == '"' {
            EscResult::Ch('"')
        } else if c == 'u' {
            if self.idx >= self.src.len() {
                return EscResult::Eof;
            }
            let c2 = self.src[self.idx];
            self.advance();
            if c2 == '{' {
                self.lex_escape_hex(esc_start)
            } else {
                EscResult::Bad(Span(esc_start, self.pos()))
            }
        } else {
            EscResult::Bad(Span(esc_start, self.pos()))
        }
    }

    /// The decoding loop shared by character and string literals: the
    /// accumulated content and the closing quote's position, or the error
    /// that ended the literal.  The opening quote, at `lit_start`, was
    /// already consumed.
    fn lex_lit_body(&mut self, quote: char, lit_start: Pos) -> (r: Result<(String, Pos), Error>)
        requires
            old(self).wf(),
        ensures
            final(self).wf(),
            final(self).src() == old(self).src(),
            ({
                let m = spec_lit_body(
                    old(self).src(),
                    old(self).st(),
                    quote,
                    lit_start@,
                    Seq::empty(),
                );
                match r {
                    Ok(p) => m == LitOut::Done(final(self).st(), p.0@, p.1@),
                    Err(e) => m == LitOut::Fail(final(self).st(), e@),
                }
            }),
    {
        let mut acc = String::new();
        loop
            invariant
                self.wf(),
                self.src() == old(self).src(),
                spec_lit_body(self.src(), self.st(), quote, lit_start@, acc@) == spec_lit_body(
                    old(self).src(),
                    old(self).st(),
                    quote,
                    lit_start@,
                    Seq::empty(),
                ),
            decreases self.src().len() - self.st().idx,
        {
            if self.idx >= self.src.len() {
                return Err(Error::UnterminatedCharOrStrLit(Span(lit_start, self.pos())));
            }
            let c = self.src[self.idx];
            self.advance();
            if c == quote {
                return Ok((acc, self.pos()));
            } else if c == '\\' {
                let esc_start = self.pos();
                let ghost pre = self.st();
                match self.lex_escape(esc_start) {
                    EscResult::Ch(ch) => {
                        proof {
                            lemma_escape(self.src(), pre, esc_start@);
                        }
                        acc.push(ch);
                    },
                    EscResult::Bad(sp) => {
                        return Err(Error::UnknownEscapeSeq(sp));
                    },
                    EscResult::Eof => {
                        return Err(Error::UnterminatedCharOrStrLit(Span(lit_start, self.pos())));
                    },
                }
            } else {
                acc.push(c);
            }
        }
    }

    /// Lexes a character literal; the lookahead is the opening quote.
    /// Exactly one decoded character must stand between the quotes.
    fn lex_char_lit(&mut self) -> (r: Result<Token, Error>)
        requires
            old(self).wf(),
            old(self).st().idx < old(self).src().len(),
            old(self).src()[old(self).st().idx] == '\'',
        ensures
            final(self).wf(),
            final(self).src() == old(self).src(),
            ({
                let step = spec_char_lit(old(self).src(), old(self).st());
                final(self).st() == step.st && match r {
                    Ok(t) => step.out == Lexed::Tok(t@),
                    Err(e) => step.out == Lexed::Bad(e@),
                }
            }),
    {
        self.advance();
        let start = self.pos();
        match self.lex_lit_body('\'', start) {
            Ok((s, endp)) => {
                let span = Span(start, endp);
                let n = s.as_str().unicode_len();
                if n == 0 {
                    Err(Error::EmptyCharLit(span))
                } else if n == 1 {
                    let c = s.as_str().get_char(0);
                    self.started = true;
                    Ok(Token(TokenKind::CharLit(c), span))
                } else {
                    Err(Error::MultipleCharsInCharLit(span))
                }
            },
            Err(e) => Err(e),
        }
    }

    /// Lexes a string literal; the lookahead is the opening quote.
    fn lex_str_lit(&mut self) -> (r: Result<Token, Error>)
        requires
            old(self).wf(),
            old(self).st().idx < old(self).src().len(),
            old(self).src()[old(self).st().idx] == '"',
        ensures
            final(self).wf(),
            final(self).src() == old(self).src(),
            ({
                let step = spec_str_lit(old(self).src(), old(self).st());
                final(self).st() == step.st && match r {
                    Ok(t) => step.out == Lexed::Tok(t@),
                    Err(e) => step.out == Lexed::Bad(e@),
                }
            }),
    {
        self.advance();
        let start = self.pos();
        match self.lex_lit_body('"', start) {
            Ok((s, endp)) => {
                self.started = true;
                Ok(Token(TokenKind::StrLit(s), Span(start, endp)))
            },
            Err(e) => Err(e),
        }
    }

    /// Lexes a raw string literal; the lookahead is the first of the two
    /// backslashes.  The rest of the physical line, verbatim with no
    /// escape processing, becomes the string's content.
    #[verifier::loop_isolation(false)]
    fn lex_raw_string_lit(&mut self) -> (t: Token)
        requires
            old(self).wf(),
            old(self).st().idx + 1 < old(self).src().len(),
            old(self).src()[old(self).st().idx] == '\\',
            old(self).src()[old(self).st().idx + 1] == '\\',
        ensures
            final(self).wf(),
            final(self).src() == old(self).src(),
            ({
                let step = spec_raw_lit(old(self).src(), old(self).st());
                final(self).st() == step.st && step.out == Lexed::Tok(t@)
            }),
    {
        self.advance();
        let start = self.pos();
        self.advance();
        let ghost entry = self.st();
        let mut s = String::new();
        loop
            invariant
                self.wf(),
                self.src() == old(self).src(),
                spec_raw_body(self.src(), self.st(), s@) == spec_raw_body(
                    old(self).src(),
                    entry,
                    Seq::empty(),
                ),
            decreases self.src().len() - self.st().idx,
        {
            if self.idx < self.src.len() {
                let c = self.src[self.idx];
                if c != '\n' {
                    s.push(c);
                    self.advance();
                    continue ;
                }
            }
            assert(spec_raw_body(self.src(), self.st(), s@) == (self.st(), s@));
            self.started = true;
            return Token(TokenKind::StrLit(s), Span(start, self.pos()));
        }
    }

    /// Lexes an alphabetic name; the lookahead is alphabetic or an
    /// underscore.
    #[verifier::loop_isolation(false)]
    fn lex_alpha(&mut self) -> (t: Token)
        requires
            old(self).wf(),
            old(self).st().idx < old(self).src().len(),
            is_alpha_start(old(self).src()[old(self).st().idx]),
        ensures
            final(self).wf(),
            final(self).src() == old(self).src(),
            ({
                let step = spec_alpha_lit(old(self).src(), old(self).st());
                final(self).st() == step.st && step.out == Lexed::Tok(t@)
            }),
    {
        let c0 = self.src[self.idx];
        self.advance();
        let start = self.pos();
        let ghost entry = self.st();
        let mut name = String::new();
        name.push(c0);
        assert(name@ =~= seq![c0]);
        loop
            invariant
                self.wf(),
                self.src() == old(self).src(),
                spec_alpha_run(self.src(), self.st(), name@) == spec_alpha_run(
                    old(self).src(),
                    entry,
                    seq![c0],
                ),
            decreases self.src().len() - self.st().idx,
        {
            if self.idx < self.src.len() {
                let c = self.src[self.idx];
                if c.is_alphanumeric() || c == '_' || c == '\'' || c == '!' {
                    name.push(c);
                    self.advance();
                    continue ;
                }
            }
            assert(spec_alpha_run(self.src(), self.st(), name@) == (self.st(), name@));
            self.started = true;
            return Token(TokenKind::Name(name), Span(start, self.pos()));
        }
    }

    /// Lexes a symbolic name; the lookahead is in the symbolic character
    /// set.
    #[verifier::loop_isolation(false)]
    fn lex_sym(&mut self) -> (t: Token)
        requires
            old(self).wf(),
            old(self).st().idx < old(self).src().len(),
            is_sym_char(old(self).src()[old(self).st().idx]),
        ensures
            final(self).wf(),
            final(self).src() == old(self).src(),
            ({
                let step = spec_sym_lit(old(self).src(), old(self).st());
                final(self).st() == step.st && step.out == Lexed::Tok(t@)
            }),
    {
        let c0 = self.src[self.idx];
        self.advance();
        let start = self.pos();
        let ghost entry = self.st();
        let mut name = String::new();
        name.push(c0);
        assert(name@ =~= seq![c0]);
        loop
            invariant
                self.wf(),
                self.src() == old(self).src(),
                spec_sym_run(self.src(), self.st(), name@) == spec_sym_run(
                    old(self).src(),
                    entry,
                    seq![c0],
                ),
            decreases self.src().len() - self.st().idx,
        {
            if self.idx < self.src.len() {
                let c = self.src[self.idx];
                if sym_char(c) {
                    name.push(c);
                    self.advance();
                    continue ;
                }
            }
            assert(spec_sym_run(self.src(), self.st(), name@) == (self.st(), name@));
            self.started = true;
            return Token(TokenKind::Name(name), Span(start, self.pos()));
        }
    }

    /// Scans the digit run of a number literal, accumulating the cleaned
    /// text into `text` and the running value into `vu`, clamped just
    /// beyond `i64::MAX` once it can no longer matter.
    #[verifier::loop_isolation(false)]
    fn lex_digit_run(&mut self, base: u32, text: &mut String, vu: &mut u128, seen0: bool) -> (seen_dot:
        bool)
        requires
            old(self).wf(),
            base == 2 || base == 8 || base == 10 || base == 16,
            !seen0 ==> val_rel(old(text)@, *old(vu), base as int),
        ensures
            final(self).wf(),
            final(self).src() == old(self).src(),
            spec_digit_run(old(self).src(), old(self).st(), base as int, seen0, old(text)@) == (
                final(self).st(),
                final(text)@,
                seen_dot,
            ),
            !seen_dot ==> val_rel(final(text)@, *final(vu), base as int),
    {
        let mut seen_dot = seen0;
        loop
            invariant
                self.wf(),
                self.src() == old(self).src(),
                spec_digit_run(self.src(), self.st(), base as int, seen_dot, text@)
                    == spec_digit_run(
                    old(self).src(),
                    old(self).st(),
                    base as int,
                    seen0,
                    old(text)@,
                ),
                !seen_dot ==> val_rel(text@, *vu, base as int),
            decreases self.src().len() - self.st().idx,
        {
            if self.idx < self.src.len() {
                let c = self.src[self.idx];
                if base_digit(c, base) {
                    let d = digit_val(c);
                    proof {
                        assert(text@.push(c).drop_last() =~= text@);
                        if !seen_dot {
                            let dv = digits_val(text@, base as int);
                            let dvc = digit_value(c);
                            assert(0 <= dvc < base);
                            assert(dv >= 0);
                            assert((base as int) * dv >= dv && (base as int) * dv >= 0)
                                by (nonlinear_arith)
                                requires
                                    dv >= 0,
                                    base >= 2,
                            ;
                            if *vu <= i64::MAX as u128 {
                                assert((*vu as int) * (base as int) + (dvc as int) < u128::MAX
                                    as int) by (nonlinear_arith)
                                    requires
                                        0 <= *vu as int <= i64::MAX as int,
                                        2 <= base as int <= 16,
                                        0 <= dvc < 16,
                                ;
                            } else {
                                assert((base as int) * dv + dvc > i64::MAX as int)
                                    by (nonlinear_arith)
                                    requires
                                        dv > i64::MAX as int,
                                        base >= 2,
                                        dvc >= 0,
                                ;
                            }
                        }
                    }
                    if *vu <= 0x7fff_ffff_ffff_ffffu128 {
                        *vu = *vu * (base as u128) + (d as u128);
                    }
                    text.push(c);
                    self.advance();
                } else if c == '_' {
                    self.advance();
                } else if c == '.' && base == 10 && !seen_dot {
                    seen_dot = true;
                    proof {
                        assert(text@.push(c).drop_last() =~= text@);
                    }
                    text.push(c);
                    self.advance();
                } else {
                    assert(spec_digit_run(self.src(), self.st(), base as int, seen_dot, text@) == (
                        self.st(),
                        text@,
                        seen_dot,
                    ));
                    return seen_dot;
                }
            } else {
                assert(spec_digit_run(self.src(), self.st(), base as int, seen_dot, text@) == (
                    self.st(),
                    text@,
                    seen_dot,
                ));
                return seen_dot;
            }
        }
    }

    /// Lexes a number literal; the lookahead is an ASCII digit.
    fn lex_num_lit(&mut self) -> (r: Result<Token, Error>)
        requires
            old(self).wf(),
            old(self).st().idx < old(self).src().len(),
            is_digit_char(old(self).src()[old(self).st().idx]),
        ensures
            final(self).wf(),
            final(self).src() == old(self).src(),
            ({
                let step = spec_num_lit(old(self).src(), old(self).st());
                final(self).st() == step.st && match r {
                    Ok(t) => step.out == Lexed::Tok(t@),
                    Err(e) => step.out == Lexed::Bad(e@),
                }
            }),
    {
        let c0 = self.src[self.idx];
        self.advance();
        let start = self.pos();
        let has_prefix = c0 == '0' && self.idx < self.src.len() && {
            let p = self.src[self.idx];
            p == 'x' || p == 'X' || p == 'b' || p == 'B' || p == 'o' || p == 'O'
        };
        if has_prefix {
            let p = self.src[self.idx];
            let base: u32 = if p == 'x' || p == 'X' {
                16
            } else if p == 'o' || p == 'O' {
                8
            } else {
                2
            };
            self.advance();
            let mut text = String::new();
            let mut vu: u128 = 0;
            assert(val_rel(text@, vu, base as int));
            let ghost entry = self.st();
            let _seen_dot = self.lex_digit_run(base, &mut text, &mut vu, false);
            proof {
                lemma_digit_run_no_dot(self.src(), entry, base as int, false, Seq::empty());
            }
            let span = Span(start, self.pos());
            if text.as_str().unicode_len() == 0 || vu > 0x7fff_ffff_ffff_ffffu128 {
                Err(Error::InvalidNumLitFormat(span))
            } else {
                self.started = true;
                Ok(Token(TokenKind::IntLit(vu as i64), span))
            }
        } else {
            let mut text = String::new();
            text.push(c0);
            let mut vu: u128 = digit_val(c0) as u128;
            proof {
                assert(text@ =~= seq![c0]);
                assert(seq![c0].len() == 1 && seq![c0].last() == c0);
                assert(seq![c0].drop_last().len() == 0);
                assert(digits_val(seq![c0].drop_last(), 10) == 0);
                assert(digits_val(seq![c0], 10) == digit_value(c0));
            }
            let seen_dot = self.lex_digit_run(10, &mut text, &mut vu, false);
            let span = Span(start, self.pos());
            if seen_dot {
                self.started = true;
                Ok(Token(TokenKind::FloatLit(text), span))
            } else if vu > 0x7fff_ffff_ffff_ffffu128 {
                Err(Error::InvalidNumLitFormat(span))
            } else {
                self.started = true;
                Ok(Token(TokenKind::IntLit(vu as i64), span))
            }
        }
    }

    /// Lexes one punctuation character; `(` followed immediately by `)`
    /// fuses into the unit literal.
    fn lex_punct(&mut self) -> (t: Token)
        requires
            old(self).wf(),
            old(self).st().idx < old(self).src().len(),
            is_punct_char(old(self).src()[old(self).st().idx]),
        ensures
            final(self).wf(),
            final(self).src() == old(self).src(),
            ({
                let step = spec_punct(old(self).src(), old(self).st());
                final(self).st() == step.st && step.out == Lexed::Tok(t@)
            }),
    {
        let c = self.src[self.idx];
        if c == '(' && self.idx + 1 < self.src.len() && self.src[self.idx + 1] == ')' {
            self.advance();
            let start = self.pos();
            self.advance();
            self.started = true;
            Token(TokenKind::UnitLit, Span(start, self.pos()))
        } else {
            self.advance();
            let p = self.pos();
            let kind = if c == '(' {
                TokenKind::Lp
            } else if c == ')' {
                TokenKind::Rp
            } else if c == '[' {
                TokenKind::Lb
            } else if c == ']' {
                TokenKind::Rb
            } else if c == '{' {
                TokenKind::Lc
            } else if c == '}' {
                TokenKind::Rc
            } else if c == ',' {
                TokenKind::Comma
            } else {
                TokenKind::ExprEnd
            };
            self.started = true;
            Token(kind, Span(p, p))
        }
    }

    /// Yields the next token or error, or `None` at the end of the input.
    ///
    /// One call skips insignificant input, classifies the lookahead, and
    /// delegates to the rule it starts.  An unrecognized character is
    /// consumed before its error is returned, so repeated calls always
    /// make progress.
    pub fn next(&mut self) -> (r: Option<Result<Token, Error>>)
        requires
            old(self).wf(),
        ensures
            final(self).wf(),
            final(self).src() == old(self).src(),
            final(self).st() == spec_next(old(self).src(), old(self).st()).st,
            lexed_of(r) == spec_next(old(self).src(), old(self).st()).out,
    {
        loop
            invariant
                self.wf(),
                self.src() == old(self).src(),
                spec_next(self.src(), self.st()) == spec_next(old(self).src(), old(self).st()),
            decreases self.src().len() - self.st().idx,
        {
            let ghost pre = self.st();
            self.skip_ws();
            proof {
                lemma_skip_ws(self.src(), pre);
                assert(spec_skip_ws(self.src(), self.st()) == self.st());
            }
            if self.idx >= self.src.len() {
                return None;
            }
            let c = self.src[self.idx];
            if c == '\n' {
                let was = self.started;
                let p = Pos(self.line, self.col + 1);
                self.advance();
                if was {
                    self.started = false;
                    return Some(Ok(Token(TokenKind::ExprEnd, Span(p, p))));
                }
            } else if c == '-' && self.idx + 1 < self.src.len() && self.src[self.idx + 1] == '-' {
                let ghost mid = self.st();
                self.skip_line_comment();
                proof {
                    lemma_skip_comment(self.src(), mid);
                }
            } else if c == '\'' {
                return Some(self.lex_char_lit());
            } else if c == '"' {
                return Some(self.lex_str_lit());
            } else if digit_char(c) {
                return Some(self.lex_num_lit());
            } else if c.is_alphabetic() || c == '_' {
                return Some(Ok(self.lex_alpha()));
            } else if c == '(' || c == ')' || c == '[' || c == ']' || c == '{' || c == '}' || c
                == ',' || c == ';' {
                return Some(Ok(self.lex_punct()));
            } else if c == '\\' && self.idx + 1 < self.src.len() && self.src[self.idx + 1] == '\\' {
                return Some(Ok(self.lex_raw_string_lit()));
            } else if sym_char(c) {
                return Some(Ok(self.lex_sym()));
            } else {
                self.advance();
                let p = self.pos();
                return Some(Err(Error::UnexpectedChar(Span(p, p))));
            }
        }
    }
}

/// How one scanner answer reads as the model's outcome.
pub open spec fn lexed_of(r: Option<Result<Token, Error>>) -> Lexed {
    match r {
        Option::None => Lexed::End,
        Option::Some(Result::Ok(t)) => Lexed::Tok(t@),
        Option::Some(Result::Err(e)) => Lexed::Bad(e@),
    }
}

/// The token sequence a vector of tokens stands for.
pub open spec fn token_views(s: Seq<Token>) -> Seq<TokenModel> {
    s.map_values(|t: Token| t@)
}

/// Scans the whole source, fail-fast: the complete ordered list of
/// tokens, or the first error encountered.
pub fn tokenize(src: Vec<char>) -> (r: Result<Vec<Token>, Error>)
    requires
        src@.len() < usize::MAX,
    ensures
        ({
            let m = spec_tokens(src@, init_state());
            match r {
                Ok(v) => m == Ok::<Seq<TokenModel>, crate::error::ErrorModel>(token_views(v@)),
                Err(e) => m == Err::<Seq<TokenModel>, crate::error::ErrorModel>(e@),
            }
        }),
{
    let mut lx = Lexer::new(src);
    let mut out: Vec<Token> = Vec::new();
    loop
        invariant
            lx.wf(),
            lx.src() == src@,
            spec_tokens(src@, init_state()) == (match spec_tokens(src@, lx.st()) {
                Ok(rest) => Ok::<Seq<TokenModel>, crate::error::ErrorModel>(
                    token_views(out@) + rest,
                ),
                Err(e) => Err::<Seq<TokenModel>, crate::error::ErrorModel>(e),
            }),
        decreases src@.len() - lx.st().idx,
    {
        let ghost pre = lx.st();
        match lx.next() {
            None => {
                assert(token_views(out@) + Seq::<TokenModel>::empty() =~= token_views(out@));
                return Ok(out);
            },
            Some(Ok(t)) => {
                let ghost out0 = out@;
                let ghost t0 = t@;
                proof {
                    lemma_next(src@, pre);
                }
                out.push(t);
                proof {
                    assert(token_views(out@) =~= token_views(out0) + seq![t0]);
                    match spec_tokens(src@, lx.st()) {
                        Ok(rest) => {
                            assert((token_views(out0) + seq![t0]) + rest =~= token_views(out0) + (
                            seq![t0] + rest));
                        },
                        Err(_) => {},
                    }
                }
            },
            Some(Err(e)) => {
                return Err(e);
            },
        }
    }
}

/// The source text as its sequence of characters.
pub fn source_chars(s: &str) -> (v: Vec<char>)
    ensures
        v@ == s@,
{
    let n = s.unicode_len();
    let mut v: Vec<char> = Vec::new();
    let mut i: usize = 0;
    while i < n
        invariant
            i <= n,
            n == s@.len(),
            v@ =~= s@.subrange(0, i as int),
        decreases n - i,
    {
        v.push(s.get_char(i));
        assert(v@ =~= s@.subrange(0, i as int + 1));
        i = i + 1;
    }
    assert(v@ =~= s@);
    v
}

/// Scans a whole source string, fail-fast.
pub fn tokenize_str(s: &str) -> (r: Result<Vec<Token>, Error>)
    requires
        s@.len() < usize::MAX,
    ensures
        ({
            let m = spec_tokens(s@, init_state());
            match r {
                Ok(v) => m == Ok::<Seq<TokenModel>, crate::error::ErrorModel>(token_views(v@)),
                Err(e) => m == Err::<Seq<TokenModel>, crate::error::ErrorModel>(e@),
            }
        }),
{
    tokenize(source_chars(s))
}

} // verus!
