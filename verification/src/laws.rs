//! General laws of the scanner, proved against the reference model.
//!
//! Each public proof function here states one property that holds of every
//! input its hypotheses admit; [`crate::lexer::tokenize`] is proved to
//! compute [`spec_tokens`], so each law carries over to the executable
//! scanner unchanged.

use vstd::prelude::*;

use crate::classify::digit_value;
use crate::classify::is_alpha_cont;
use crate::classify::is_alpha_start;
use crate::classify::is_sym_char;
use crate::classify::is_base_digit;
use crate::classify::is_digit_char;
use crate::classify::is_hex_digit_char;
use crate::classify::is_ws_char;
use crate::classify::valid_scalar;
use crate::error::ErrorModel;
use crate::model::adv;
use crate::model::base_of;
use crate::model::digits_val;
use crate::model::init_state;
use crate::model::is_base_prefix;
use crate::model::is_punct_char;
use crate::model::lemma_skip_comment;
use crate::model::spec_alpha_run;
use crate::model::spec_escape;
use crate::model::spec_lit_body;
use crate::model::spec_raw_body;
use crate::model::spec_sym_run;
use crate::model::EscOut;
use crate::model::LitOut;
use crate::model::lemma_next;
use crate::model::lemma_skip_ws;
use crate::model::spec_digit_run;
use crate::model::spec_escape_hex;
use crate::model::spec_next;
use crate::model::spec_skip_comment;
use crate::model::spec_skip_ws;
use crate::model::spec_tokens;
use crate::model::st_pos;
use crate::model::strip_underscores;
use crate::model::Lexed;
use crate::model::LexState;
use crate::token::pos_le;
use crate::token::pos_lt;
use crate::token::PosModel;
use crate::token::KindModel;
use crate::token::SpanModel;
use crate::token::TokenModel;

verus! {

/// A step over input that holds nothing but whitespace, on a line that has
/// produced no token, reaches the end of the input silently.
proof fn lemma_next_all_ws(src: Seq<char>, st: LexState)
    requires
        0 <= st.idx <= src.len(),
        !st.started,
        forall|i: int| st.idx <= i < src.len() ==> is_ws_char(#[trigger] src[i]),
    ensures
        spec_next(src, st).out is End,
    decreases src.len() - st.idx,
{
    lemma_skip_ws(src, st);
    let st1 = spec_skip_ws(src, st);
    if st1.idx < src.len() {
        assert(src[st1.idx] == '\n');
        lemma_next_all_ws(src, adv(st1, '\n'));
    }
}

/// For all inputs consisting solely of whitespace, the token sequence is
/// empty: non-terminator whitespace is insignificant, and a line
/// terminator on a line without tokens is consumed silently.
pub proof fn whitespace_only_scans_empty(src: Seq<char>)
    requires
        forall|i: int| 0 <= i < src.len() ==> is_ws_char(#[trigger] src[i]),
    ensures
        spec_tokens(src, init_state()) == Ok::<Seq<TokenModel>, ErrorModel>(Seq::empty()),
{
    lemma_next_all_ws(src, init_state());
}

/// A comment skip over terminator-free input reaches the end of the
/// input.
proof fn lemma_skip_comment_all(src: Seq<char>, st: LexState)
    requires
        0 <= st.idx <= src.len(),
        forall|i: int| st.idx <= i < src.len() ==> src[i] != '\n',
    ensures
        spec_skip_comment(src, st).idx == src.len(),
        spec_skip_comment(src, st).started == st.started,
    decreases src.len() - st.idx,
{
    if st.idx < src.len() {
        lemma_skip_comment_all(src, adv(st, src[st.idx]));
    }
}

/// Comment text produces zero tokens: a line consisting of the comment
/// prefix and any terminator-free text scans to an empty token sequence.
pub proof fn comment_line_scans_empty(tail: Seq<char>)
    requires
        forall|i: int| 0 <= i < tail.len() ==> tail[i] != '\n',
    ensures
        spec_tokens(seq!['-', '-'] + tail, init_state()) == Ok::<
            Seq<TokenModel>,
            ErrorModel,
        >(Seq::empty()),
{
    let src = seq!['-', '-'] + tail;
    let st = init_state();
    assert(src[0] == '-' && src[1] == '-');
    assert(!is_ws_char('-'));
    assert(spec_skip_ws(src, st) == st);
    assert(forall|i: int| 0 <= i < src.len() ==> src[i] != '\n') by {
        assert(forall|i: int| 2 <= i < src.len() ==> src[i] == tail[i - 2]);
    }
    lemma_skip_comment_all(src, st);
    let st2 = spec_skip_comment(src, st);
    assert(spec_skip_ws(src, st2) == st2);
    assert(spec_next(src, st2).out is End);
    assert(spec_next(src, st).out is End);
}

/// A digit run over input made of base digits and underscores alone
/// consumes all of it, keeps the dot flag, and accumulates exactly the
/// digits with underscores removed.
proof fn lemma_digit_run_all(
    src: Seq<char>,
    st: LexState,
    base: int,
    seen_dot: bool,
    acc: Seq<char>,
)
    requires
        0 <= st.idx <= src.len(),
        base == 2 || base == 8 || base == 10 || base == 16,
        forall|i: int|
            st.idx <= i < src.len() ==> is_base_digit(#[trigger] src[i], base) || src[i] == '_',
    ensures
        ({
            let (st2, digits, sd) = spec_digit_run(src, st, base, seen_dot, acc);
            &&& st2.idx == src.len()
            &&& sd == seen_dot
            &&& digits == acc + strip_underscores(src.subrange(st.idx, src.len() as int))
        }),
    decreases src.len() - st.idx,
{
    let suffix = src.subrange(st.idx, src.len() as int);
    if st.idx < src.len() {
        let c = src[st.idx];
        assert(suffix.first() == c);
        assert(suffix.drop_first() =~= src.subrange(st.idx + 1, src.len() as int));
        if is_base_digit(c, base) {
            lemma_digit_run_all(src, adv(st, c), base, seen_dot, acc.push(c));
            assert(acc.push(c) + strip_underscores(src.subrange(st.idx + 1, src.len() as int))
                =~= acc + strip_underscores(suffix));
        } else {
            assert(c == '_');
            lemma_digit_run_all(src, adv(st, c), base, seen_dot, acc);
            assert(acc + strip_underscores(src.subrange(st.idx + 1, src.len() as int)) =~= acc
                + strip_underscores(suffix));
        }
    } else {
        assert(suffix.len() == 0);
        assert(acc + strip_underscores(suffix) =~= acc);
        assert(spec_digit_run(src, st, base, seen_dot, acc) == (st, acc, seen_dot));
    }
}

/// For all decimal digit strings with interior underscores, the produced
/// integer literal's value equals the string with underscores removed,
/// parsed as base 10.
pub proof fn decimal_underscore_value(src: Seq<char>)
    requires
        src.len() > 0,
        is_digit_char(src[0]),
        forall|i: int| 0 <= i < src.len() ==> is_digit_char(#[trigger] src[i]) || src[i] == '_',
        digits_val(strip_underscores(src), 10) <= i64::MAX as int,
    ensures
        ({
            let r = spec_tokens(src, init_state());
            &&& r is Ok
            &&& r->Ok_0.len() == 1
            &&& r->Ok_0[0].kind == KindModel::Int(digits_val(strip_underscores(src), 10))
        }),
{
    let st = init_state();
    let c0 = src[0];
    assert(!is_ws_char(c0));
    assert(spec_skip_ws(src, st) == st);
    let st1 = adv(st, c0);
    assert(c0 != '\n' && c0 != '-' && c0 != '\'' && c0 != '"');
    assert(st1.idx < src.len() ==> !is_base_prefix(src[st1.idx]));
    lemma_digit_run_all(src, st1, 10, false, seq![c0]);
    let (st3, digits, sd) = spec_digit_run(src, st1, 10, false, seq![c0]);
    assert(digits == strip_underscores(src)) by {
        assert(src.subrange(1, src.len() as int) =~= src.drop_first());
        assert(seq![c0] + strip_underscores(src.drop_first()) =~= strip_underscores(src));
    }
    assert(!sd);
    let step = spec_next(src, st);
    assert(step.st.idx == src.len());
    assert(spec_skip_ws(src, step.st) == step.st);
    assert(spec_next(src, step.st).out is End);
    assert(spec_tokens(src, step.st) == Ok::<Seq<TokenModel>, ErrorModel>(Seq::empty()));
    let t = TokenModel {
        kind: KindModel::Int(digits_val(digits, 10)),
        span: SpanModel { start: st_pos(st1), end: st_pos(st3) },
    };
    assert(step.out == Lexed::Tok(t));
    assert(seq![t] + Seq::<TokenModel>::empty() =~= seq![t]);
}

/// For all valid prefixed literals, the produced value equals the digits
/// parsed in the base the prefix names.
pub proof fn prefixed_literal_value(p: char, tail: Seq<char>)
    requires
        is_base_prefix(p),
        forall|i: int|
            0 <= i < tail.len() ==> is_base_digit(#[trigger] tail[i], base_of(p)) || tail[i]
                == '_',
        strip_underscores(tail).len() > 0,
        digits_val(strip_underscores(tail), base_of(p)) <= i64::MAX as int,
    ensures
        ({
            let r = spec_tokens(seq!['0', p] + tail, init_state());
            &&& r is Ok
            &&& r->Ok_0.len() == 1
            &&& r->Ok_0[0].kind == KindModel::Int(
                digits_val(strip_underscores(tail), base_of(p)),
            )
        }),
{
    let src = seq!['0', p] + tail;
    let base = base_of(p);
    let st = init_state();
    assert(src[0] == '0' && src[1] == p);
    assert(!is_ws_char('0'));
    assert(spec_skip_ws(src, st) == st);
    let st1 = adv(st, '0');
    let st2 = adv(st1, p);
    assert(forall|i: int| 2 <= i < src.len() ==> src[i] == tail[i - 2]);
    lemma_digit_run_all(src, st2, base, false, Seq::empty());
    let (st3, digits, sd) = spec_digit_run(src, st2, base, false, Seq::empty());
    assert(digits == strip_underscores(tail)) by {
        assert(src.subrange(2, src.len() as int) =~= tail);
        assert(Seq::<char>::empty() + strip_underscores(tail) =~= strip_underscores(tail));
    }
    assert(!sd);
    let step = spec_next(src, st);
    assert(spec_skip_ws(src, step.st) == step.st);
    assert(spec_next(src, step.st).out is End);
    assert(spec_tokens(src, step.st) == Ok::<Seq<TokenModel>, ErrorModel>(Seq::empty()));
    let t = TokenModel {
        kind: KindModel::Int(digits_val(digits, base)),
        span: SpanModel { start: st_pos(st1), end: st_pos(st3) },
    };
    assert(step.out == Lexed::Tok(t));
    assert(seq![t] + Seq::<TokenModel>::empty() =~= seq![t]);
}

/// The state after consuming `k` characters of one line.
spec fn run_adv(st: LexState, k: int) -> LexState {
    LexState { idx: st.idx + k, line: st.line, col: st.col + k, started: st.started }
}

/// The hex decoder over `m` hex digits followed by the closing brace,
/// having already read the digits `pre`: it consumes all of them and
/// decodes the character with the digits' base-16 value, or reports the
/// whole escape when no digit came or the value is no scalar value.
proof fn lemma_escape_hex_digits(
    src: Seq<char>,
    st: LexState,
    esc_start: PosModel,
    pre: Seq<char>,
    m: int,
)
    requires
        0 <= st.idx,
        0 <= m,
        st.idx + m + 1 <= src.len(),
        forall|i: int| st.idx <= i < st.idx + m ==> is_hex_digit_char(#[trigger] src[i]),
        src[st.idx + m] == '}',
    ensures
        ({
            let digits = pre + src.subrange(st.idx, st.idx + m);
            let v = digits_val(digits, 16);
            let stf = run_adv(st, m + 1);
            let expected = if digits.len() >= 1 && valid_scalar(v) {
                EscOut::Ch(stf, (v as u32) as char)
            } else {
                EscOut::Bad(stf, SpanModel { start: esc_start, end: st_pos(stf) })
            };
            spec_escape_hex(src, st, esc_start, digits_val(pre, 16), pre.len() as int) == expected
        }),
    decreases m,
{
    let c = src[st.idx];
    if m == 0 {
        assert(c == '}');
        assert(!is_hex_digit_char('}'));
        assert(pre + src.subrange(st.idx, st.idx) =~= pre);
        assert(adv(st, '}') == run_adv(st, 1));
    } else {
        assert(is_hex_digit_char(c));
        assert(digits_val(pre.push(c), 16) == 16 * digits_val(pre, 16) + digit_value(c)) by {
            assert(pre.push(c).drop_last() =~= pre);
        }
        lemma_escape_hex_digits(src, adv(st, c), esc_start, pre.push(c), m - 1);
        assert(pre.push(c) + src.subrange(st.idx + 1, st.idx + m) =~= pre + src.subrange(
            st.idx,
            st.idx + m,
        ));
        assert(run_adv(adv(st, c), m) == run_adv(st, m + 1));
    }
}

/// Round-trip for the fixed escape table: a string literal holding
/// exactly one escape from the table decodes to the one-character string
/// it names.
pub proof fn escape_roundtrip_fixed(e: char, c: char)
    requires
        (e == 'n' && c == '\n') || (e == 'r' && c == '\r') || (e == 't' && c == '\t') || (e == '\\'
            && c == '\\') || (e == '0' && c == '\0') || (e == '\'' && c == '\'') || (e == '"' && c
            == '"'),
    ensures
        ({
            let r = spec_tokens(seq!['"', '\\', e, '"'], init_state());
            &&& r is Ok
            &&& r->Ok_0.len() == 1
            &&& r->Ok_0[0].kind == KindModel::Str(seq![c])
        }),
{
    let src = seq!['"', '\\', e, '"'];
    let st = init_state();
    assert(src[0] == '"' && src[1] == '\\' && src[2] == e && src[3] == '"');
    assert(!is_ws_char('"'));
    assert(spec_skip_ws(src, st) == st);
    reveal_with_fuel(crate::model::spec_lit_body, 3);
    let step = spec_next(src, st);
    assert(Seq::<char>::empty().push(c) =~= seq![c]);
    assert(step.out matches Lexed::Tok(t) && t.kind == KindModel::Str(seq![c]));
    assert(spec_skip_ws(src, step.st) == step.st);
    assert(spec_next(src, step.st).out is End);
    assert(spec_tokens(src, step.st) == Ok::<Seq<TokenModel>, ErrorModel>(Seq::empty()));
    let t = step.out->Tok_0;
    assert(seq![t] + Seq::<TokenModel>::empty() =~= seq![t]);
}

/// Round-trip for the Unicode escape form: a string literal holding
/// exactly `\u{h}`, for any hex digit string `h` whose base-16 value is a
/// Unicode scalar value, decodes to the one-character string of that
/// character.
pub proof fn escape_roundtrip_unicode(h: Seq<char>)
    requires
        h.len() >= 1,
        forall|i: int| 0 <= i < h.len() ==> is_hex_digit_char(#[trigger] h[i]),
        valid_scalar(digits_val(h, 16)),
    ensures
        ({
            let r = spec_tokens(seq!['"', '\\', 'u', '{'] + h + seq!['}', '"'], init_state());
            &&& r is Ok
            &&& r->Ok_0.len() == 1
            &&& r->Ok_0[0].kind == KindModel::Str(seq![(digits_val(h, 16) as u32) as char])
        }),
{
    let src = seq!['"', '\\', 'u', '{'] + h + seq!['}', '"'];
    let m = h.len() as int;
    let st = init_state();
    assert(src.len() == m + 6);
    assert(src[0] == '"' && src[1] == '\\' && src[2] == 'u' && src[3] == '{');
    assert(forall|i: int| 0 <= i < m ==> src[4 + i] == h[i]);
    assert(src[4 + m] == '}' && src[5 + m] == '"');
    assert(!is_ws_char('"'));
    assert(spec_skip_ws(src, st) == st);
    let st1 = adv(st, '"');
    let st2 = adv(st1, '\\');
    let st3 = adv(st2, 'u');
    let st4 = adv(st3, '{');
    let esc_start = st_pos(st2);
    assert(forall|i: int| st4.idx <= i < st4.idx + m ==> is_hex_digit_char(#[trigger] src[i]));
    lemma_escape_hex_digits(src, st4, esc_start, Seq::empty(), m);
    let digits = Seq::<char>::empty() + src.subrange(4, 4 + m);
    assert(digits =~= h);
    let ch = (digits_val(h, 16) as u32) as char;
    let stf = run_adv(st4, m + 1);
    assert(spec_escape_hex(src, st4, esc_start, 0, 0) == EscOut::Ch(stf, ch)) by {
        assert(digits_val(Seq::<char>::empty(), 16) == 0);
        assert(Seq::<char>::empty().len() == 0);
    }
    assert(src[stf.idx] == '"');
    reveal_with_fuel(crate::model::spec_lit_body, 3);
    let step = spec_next(src, st);
    assert(Seq::<char>::empty().push(ch) =~= seq![ch]);
    assert(step.out matches Lexed::Tok(t) && t.kind == KindModel::Str(seq![ch]));
    assert(spec_skip_ws(src, step.st) == step.st);
    assert(spec_next(src, step.st).out is End);
    assert(spec_tokens(src, step.st) == Ok::<Seq<TokenModel>, ErrorModel>(Seq::empty()));
    let t = step.out->Tok_0;
    assert(seq![t] + Seq::<TokenModel>::empty() =~= seq![t]);
}

/// Whitespace skipping never moves the position backward.
proof fn lemma_skip_ws_pos(src: Seq<char>, st: LexState)
    ensures
        pos_le(st_pos(st), st_pos(spec_skip_ws(src, st))),
    decreases src.len() - st.idx,
{
    if 0 <= st.idx && st.idx < src.len() && is_ws_char(src[st.idx]) && src[st.idx] != '\n' {
        lemma_skip_ws_pos(src, adv(st, src[st.idx]));
    }
}

/// Comment skipping never moves the position backward.
proof fn lemma_skip_comment_pos(src: Seq<char>, st: LexState)
    ensures
        pos_le(st_pos(st), st_pos(spec_skip_comment(src, st))),
    decreases src.len() - st.idx,
{
    if 0 <= st.idx && st.idx < src.len() && src[st.idx] != '\n' {
        lemma_skip_comment_pos(src, adv(st, src[st.idx]));
    }
}

/// A raw-string body never moves the position backward.
proof fn lemma_raw_body_pos(src: Seq<char>, st: LexState, acc: Seq<char>)
    ensures
        pos_le(st_pos(st), st_pos(spec_raw_body(src, st, acc).0)),
    decreases src.len() - st.idx,
{
    if 0 <= st.idx && st.idx < src.len() && src[st.idx] != '\n' {
        lemma_raw_body_pos(src, adv(st, src[st.idx]), acc.push(src[st.idx]));
    }
}

/// A digit run never moves the position backward.
proof fn lemma_digit_run_pos(src: Seq<char>, st: LexState, base: int, seen_dot: bool, acc: Seq<
    char,
>)
    ensures
        pos_le(st_pos(st), st_pos(spec_digit_run(src, st, base, seen_dot, acc).0)),
    decreases src.len() - st.idx,
{
    if 0 <= st.idx && st.idx < src.len() {
        let c = src[st.idx];
        if is_base_digit(c, base) {
            lemma_digit_run_pos(src, adv(st, c), base, seen_dot, acc.push(c));
        } else if c == '_' {
            lemma_digit_run_pos(src, adv(st, c), base, seen_dot, acc);
        } else if c == '.' && base == 10 && !seen_dot {
            lemma_digit_run_pos(src, adv(st, c), base, true, acc.push(c));
        }
    }
}

/// An alphabetic-name run never moves the position backward.
proof fn lemma_alpha_run_pos(src: Seq<char>, st: LexState, acc: Seq<char>)
    ensures
        pos_le(st_pos(st), st_pos(spec_alpha_run(src, st, acc).0)),
    decreases src.len() - st.idx,
{
    if 0 <= st.idx && st.idx < src.len() && is_alpha_cont(src[st.idx]) {
        lemma_alpha_run_pos(src, adv(st, src[st.idx]), acc.push(src[st.idx]));
    }
}

/// A symbolic-name run never moves the position backward.
proof fn lemma_sym_run_pos(src: Seq<char>, st: LexState, acc: Seq<char>)
    ensures
        pos_le(st_pos(st), st_pos(spec_sym_run(src, st, acc).0)),
    decreases src.len() - st.idx,
{
    if 0 <= st.idx && st.idx < src.len() && is_sym_char(src[st.idx]) {
        lemma_sym_run_pos(src, adv(st, src[st.idx]), acc.push(src[st.idx]));
    }
}

/// The hex part of an escape never moves the position backward.
proof fn lemma_escape_hex_pos(
    src: Seq<char>,
    st: LexState,
    esc_start: PosModel,
    val: int,
    nd: int,
)
    ensures
        ({
            let r = spec_escape_hex(src, st, esc_start, val, nd);
            match r {
                EscOut::Ch(s, _) => pos_le(st_pos(st), st_pos(s)),
                EscOut::Bad(s, _) => pos_le(st_pos(st), st_pos(s)),
                EscOut::Eof(s) => pos_le(st_pos(st), st_pos(s)),
            }
        }),
    decreases src.len() - st.idx,
{
    if 0 <= st.idx && st.idx < src.len() {
        let c = src[st.idx];
        if is_hex_digit_char(c) {
            lemma_escape_hex_pos(src, adv(st, c), esc_start, 16 * val + digit_value(c), nd + 1);
        }
    }
}

/// An escape never moves the position backward.
proof fn lemma_escape_pos(src: Seq<char>, st: LexState, esc_start: PosModel)
    ensures
        ({
            let r = spec_escape(src, st, esc_start);
            match r {
                EscOut::Ch(s, _) => pos_le(st_pos(st), st_pos(s)),
                EscOut::Bad(s, _) => pos_le(st_pos(st), st_pos(s)),
                EscOut::Eof(s) => pos_le(st_pos(st), st_pos(s)),
            }
        }),
{
    if 0 <= st.idx && st.idx < src.len() {
        let c = src[st.idx];
        let st1 = adv(st, c);
        if c == 'u' && st1.idx < src.len() && src[st1.idx] == '{' {
            lemma_escape_hex_pos(src, adv(st1, src[st1.idx]), esc_start, 0, 0);
        }
    }
}

/// The literal-body loop never moves the position backward, and the
/// closing-quote position it reports is the position it stops at.
proof fn lemma_lit_body_pos(
    src: Seq<char>,
    st: LexState,
    quote: char,
    lit_start: PosModel,
    acc: Seq<char>,
)
    ensures
        ({
            let r = spec_lit_body(src, st, quote, lit_start, acc);
            match r {
                LitOut::Done(s, _, endp) => pos_le(st_pos(st), st_pos(s)) && endp == st_pos(s),
                LitOut::Fail(s, _) => pos_le(st_pos(st), st_pos(s)),
            }
        }),
    decreases src.len() - st.idx,
{
    if 0 <= st.idx && st.idx < src.len() {
        let c = src[st.idx];
        let st1 = adv(st, c);
        if c == quote {
        } else if c == '\\' {
            let esc_start = st_pos(st1);
            lemma_escape_pos(src, st1, esc_start);
            crate::model::lemma_escape(src, st1, esc_start);
            match spec_escape(src, st1, esc_start) {
                EscOut::Ch(st2, ch) => {
                    lemma_lit_body_pos(src, st2, quote, lit_start, acc.push(ch));
                },
                _ => {},
            }
        } else {
            lemma_lit_body_pos(src, st1, quote, lit_start, acc.push(c));
        }
    }
}

/// One scanner step never moves the position backward, and a token it
/// yields spans characters strictly after the step's starting position
/// and no later than its final position.
proof fn lemma_next_spans(src: Seq<char>, st: LexState)
    requires
        0 <= st.idx <= src.len(),
    ensures
        ({
            let step = spec_next(src, st);
            &&& pos_le(st_pos(st), st_pos(step.st))
            &&& (step.out matches Lexed::Tok(t) ==> pos_lt(st_pos(st), t.span.start) && pos_le(
                t.span.start,
                t.span.end,
            ) && pos_le(t.span.end, st_pos(step.st)))
        }),
    decreases src.len() - st.idx,
{
    lemma_skip_ws(src, st);
    lemma_skip_ws_pos(src, st);
    let st1 = spec_skip_ws(src, st);
    if st1.idx < src.len() {
        let c = src[st1.idx];
        let st2 = adv(st1, c);
        if c == '\n' {
            if !st1.started {
                lemma_next_spans(src, st2);
            }
        } else if c == '-' && st1.idx + 1 < src.len() && src[st1.idx + 1] == '-' {
            lemma_skip_comment(src, st1);
            lemma_skip_comment_pos(src, st1);
            lemma_next_spans(src, spec_skip_comment(src, st1));
        } else if c == '\'' {
            lemma_lit_body_pos(src, st2, '\'', st_pos(st2), Seq::empty());
        } else if c == '"' {
            lemma_lit_body_pos(src, st2, '"', st_pos(st2), Seq::empty());
        } else if is_digit_char(c) {
            if c == '0' && st2.idx < src.len() && is_base_prefix(src[st2.idx]) {
                let st3 = adv(st2, src[st2.idx]);
                lemma_digit_run_pos(src, st3, base_of(src[st2.idx]), false, Seq::empty());
            } else {
                lemma_digit_run_pos(src, st2, 10, false, seq![c]);
            }
        } else if is_alpha_start(c) {
            lemma_alpha_run_pos(src, st2, seq![c]);
        } else if is_punct_char(c) {
        } else if c == '\\' && st1.idx + 1 < src.len() && src[st1.idx + 1] == '\\' {
            lemma_raw_body_pos(src, adv(st2, '\\'), Seq::empty());
        } else if is_sym_char(c) {
            lemma_sym_run_pos(src, st2, seq![c]);
        }
    }
}

/// The token list from any state has spans strictly after that state's
/// position, ordered within each token, and strictly increasing from each
/// token to the next.
proof fn lemma_tokens_spans(src: Seq<char>, st: LexState)
    requires
        0 <= st.idx <= src.len(),
        spec_tokens(src, st) is Ok,
    ensures
        ({
            let toks = spec_tokens(src, st)->Ok_0;
            &&& forall|i: int|
                0 <= i < toks.len() ==> pos_lt(st_pos(st), (#[trigger] toks[i]).span.start)
            &&& forall|i: int|
                0 <= i < toks.len() ==> pos_le((#[trigger] toks[i]).span.start, toks[i].span.end)
            &&& forall|i: int|
                0 <= i && i + 1 < toks.len() ==> pos_lt(
                    (#[trigger] toks[i]).span.end,
                    toks[i + 1].span.start,
                )
        }),
    decreases src.len() - st.idx,
{
    let step = spec_next(src, st);
    lemma_next_spans(src, st);
    match step.out {
        Lexed::Tok(t) => {
            lemma_next(src, st);
            lemma_tokens_spans(src, step.st);
            let rest = spec_tokens(src, step.st)->Ok_0;
            let toks = spec_tokens(src, st)->Ok_0;
            assert(toks == seq![t] + rest);
            assert(toks[0] == t);
            assert(forall|i: int| 1 <= i < toks.len() ==> toks[i] == rest[i - 1]);
        },
        _ => {},
    }
}

/// Every emitted token's span is ordered within itself, and spans never
/// overlap: each token's span begins strictly after the previous token's
/// span ends, in line-then-column order.
pub proof fn token_spans_ordered(src: Seq<char>)
    requires
        spec_tokens(src, init_state()) is Ok,
    ensures
        ({
            let toks = spec_tokens(src, init_state())->Ok_0;
            &&& forall|i: int|
                0 <= i < toks.len() ==> pos_le((#[trigger] toks[i]).span.start, toks[i].span.end)
            &&& forall|i: int|
                0 <= i && i + 1 < toks.len() ==> pos_lt(
                    (#[trigger] toks[i]).span.end,
                    toks[i + 1].span.start,
                )
        }),
{
    lemma_tokens_spans(src, init_state());
}

} // verus!
