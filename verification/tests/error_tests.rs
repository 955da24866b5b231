//! Tests for the error taxonomy: each failure kind, with its span.

use lynx_lexer::error::Error;
use lynx_lexer::lexer::tokenize_str;
use lynx_lexer::token::Pos;
use lynx_lexer::token::Span;

fn err(s: &str) -> Error {
    match tokenize_str(s) {
        Ok(ts) => panic!("expected a lexical error, got {:?}", ts),
        Err(e) => e,
    }
}

#[test]
fn empty_char_literal() {
    assert_eq!(err("''"), Error::EmptyCharLit(Span(Pos(1, 1), Pos(1, 2))));
}

#[test]
fn multiple_chars_in_char_literal() {
    assert_eq!(err("'ab'"), Error::MultipleCharsInCharLit(Span(Pos(1, 1), Pos(1, 4))));
}

#[test]
fn unterminated_char_literal() {
    assert_eq!(err("'a"), Error::UnterminatedCharOrStrLit(Span(Pos(1, 1), Pos(1, 2))));
}

#[test]
fn unterminated_string_literal() {
    assert_eq!(err("\"abc"), Error::UnterminatedCharOrStrLit(Span(Pos(1, 1), Pos(1, 4))));
}

#[test]
fn input_ending_mid_escape_is_unterminated() {
    assert_eq!(err("\"ab\\"), Error::UnterminatedCharOrStrLit(Span(Pos(1, 1), Pos(1, 4))));
    assert_eq!(err("'\\u{4"), Error::UnterminatedCharOrStrLit(Span(Pos(1, 1), Pos(1, 5))));
}

#[test]
fn unknown_escape_letter() {
    assert_eq!(err("\"\\q\""), Error::UnknownEscapeSeq(Span(Pos(1, 2), Pos(1, 3))));
}

#[test]
fn unicode_escape_missing_brace() {
    assert_eq!(err("'\\uA'"), Error::UnknownEscapeSeq(Span(Pos(1, 2), Pos(1, 4))));
}

#[test]
fn unicode_escape_without_digits() {
    assert_eq!(err("'\\u{}'"), Error::UnknownEscapeSeq(Span(Pos(1, 2), Pos(1, 5))));
}

#[test]
fn unicode_escape_bad_digit() {
    assert_eq!(err("'\\u{1G}'"), Error::UnknownEscapeSeq(Span(Pos(1, 2), Pos(1, 6))));
}

#[test]
fn unicode_escape_out_of_range() {
    assert_eq!(err("'\\u{110000}'"), Error::UnknownEscapeSeq(Span(Pos(1, 2), Pos(1, 11))));
}

#[test]
fn unicode_escape_surrogate() {
    assert_eq!(err("'\\u{D800}'"), Error::UnknownEscapeSeq(Span(Pos(1, 2), Pos(1, 9))));
}

#[test]
fn prefix_without_digits() {
    assert_eq!(err("0x"), Error::InvalidNumLitFormat(Span(Pos(1, 1), Pos(1, 2))));
    assert_eq!(err("0b__"), Error::InvalidNumLitFormat(Span(Pos(1, 1), Pos(1, 4))));
}

#[test]
fn integer_overflow_is_invalid_format() {
    assert_eq!(
        err("9223372036854775808"),
        Error::InvalidNumLitFormat(Span(Pos(1, 1), Pos(1, 19)))
    );
    assert_eq!(
        err("0x8000000000000000"),
        Error::InvalidNumLitFormat(Span(Pos(1, 1), Pos(1, 18)))
    );
}

#[test]
fn unexpected_character() {
    assert_eq!(err("\u{7}"), Error::UnexpectedChar(Span(Pos(1, 1), Pos(1, 1))));
    assert_eq!(err("x \u{7}"), Error::UnexpectedChar(Span(Pos(1, 3), Pos(1, 3))));
}

#[test]
fn error_stops_the_whole_scan() {
    assert_eq!(err("good 'bad"), Error::UnterminatedCharOrStrLit(Span(Pos(1, 6), Pos(1, 9))));
}

#[test]
fn scanner_advances_past_unexpected_char() {
    let mut lx = lynx_lexer::lexer::Lexer::new(lynx_lexer::lexer::source_chars("\u{7}x"));
    let e = lx.next().unwrap().unwrap_err();
    assert_eq!(e, Error::UnexpectedChar(Span(Pos(1, 1), Pos(1, 1))));
    let t = lx.next().unwrap().unwrap();
    assert_eq!(t.0, lynx_lexer::token::TokenKind::Name("x".to_string()));
    assert!(lx.next().is_none());
}
