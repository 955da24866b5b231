//! Scenario tests for the scanner: literals, names, punctuation,
//! separators and spans.

use lynx_lexer::lexer::tokenize_str;
use lynx_lexer::token::Pos;
use lynx_lexer::token::Span;
use lynx_lexer::token::Token;
use lynx_lexer::token::TokenKind;

fn toks(s: &str) -> Vec<Token> {
    tokenize_str(s).unwrap_or_else(|e| panic!("unexpected lexical error: {:?}", e))
}

fn kinds(s: &str) -> Vec<TokenKind> {
    toks(s).into_iter().map(|t| t.0).collect()
}

#[test]
fn whitespace_only_is_empty() {
    assert_eq!(toks(""), vec![]);
    assert_eq!(toks("   \t  "), vec![]);
    assert_eq!(toks(" \t\r\n  \n"), vec![]);
    assert_eq!(toks("\n\n\n"), vec![]);
}

#[test]
fn unit_literal_fuses() {
    assert_eq!(kinds("()"), vec![TokenKind::UnitLit]);
    assert_eq!(
        toks("()"),
        vec![Token(TokenKind::UnitLit, Span(Pos(1, 1), Pos(1, 2)))]
    );
}

#[test]
fn spaced_parens_stay_separate() {
    assert_eq!(kinds("( )"), vec![TokenKind::Lp, TokenKind::Rp]);
    assert_eq!(kinds("(())"), vec![TokenKind::Lp, TokenKind::UnitLit, TokenKind::Rp]);
}

#[test]
fn decimal_with_underscores() {
    assert_eq!(kinds("1_000_000"), vec![TokenKind::IntLit(1_000_000)]);
    assert_eq!(kinds("1__2_"), vec![TokenKind::IntLit(12)]);
}

#[test]
fn prefixed_literals() {
    assert_eq!(kinds("0x2A"), vec![TokenKind::IntLit(42)]);
    assert_eq!(kinds("0X2a"), vec![TokenKind::IntLit(42)]);
    assert_eq!(kinds("0o17"), vec![TokenKind::IntLit(15)]);
    assert_eq!(kinds("0b101"), vec![TokenKind::IntLit(5)]);
    assert_eq!(kinds("0xff_ff"), vec![TokenKind::IntLit(0xffff)]);
}

#[test]
fn binary_scan_stops_at_invalid_digit() {
    assert_eq!(kinds("0b102"), vec![TokenKind::IntLit(2), TokenKind::IntLit(2)]);
}

#[test]
fn plain_integers() {
    assert_eq!(kinds("0"), vec![TokenKind::IntLit(0)]);
    assert_eq!(kinds("007"), vec![TokenKind::IntLit(7)]);
    assert_eq!(
        kinds("9223372036854775807"),
        vec![TokenKind::IntLit(9223372036854775807)]
    );
}

#[test]
fn float_literals_carry_cleaned_text() {
    assert_eq!(kinds("3.14"), vec![TokenKind::FloatLit("3.14".to_string())]);
    assert_eq!(kinds("1_0.2_5"), vec![TokenKind::FloatLit("10.25".to_string())]);
}

#[test]
fn second_point_ends_the_literal() {
    assert_eq!(
        kinds("1.2.3"),
        vec![
            TokenKind::FloatLit("1.2".to_string()),
            TokenKind::Name(".".to_string()),
            TokenKind::IntLit(3),
        ]
    );
}

#[test]
fn string_escapes_decode() {
    assert_eq!(kinds("\"\\n\""), vec![TokenKind::StrLit("\n".to_string())]);
    assert_eq!(kinds("\"\\r\""), vec![TokenKind::StrLit("\r".to_string())]);
    assert_eq!(kinds("\"\\t\""), vec![TokenKind::StrLit("\t".to_string())]);
    assert_eq!(kinds("\"\\\\\""), vec![TokenKind::StrLit("\\".to_string())]);
    assert_eq!(kinds("\"\\0\""), vec![TokenKind::StrLit("\0".to_string())]);
    assert_eq!(kinds("\"\\'\""), vec![TokenKind::StrLit("'".to_string())]);
    assert_eq!(kinds("\"\\\"\""), vec![TokenKind::StrLit("\"".to_string())]);
}

#[test]
fn unicode_escape_decodes() {
    assert_eq!(kinds("\"\\u{41}\""), vec![TokenKind::StrLit("A".to_string())]);
    assert_eq!(kinds("'\\u{1F600}'"), vec![TokenKind::CharLit('\u{1F600}')]);
}

#[test]
fn char_literals() {
    assert_eq!(kinds("'a'"), vec![TokenKind::CharLit('a')]);
    assert_eq!(kinds("'\\n'"), vec![TokenKind::CharLit('\n')]);
    assert_eq!(
        toks("'a'"),
        vec![Token(TokenKind::CharLit('a'), Span(Pos(1, 1), Pos(1, 3)))]
    );
}

#[test]
fn string_literal_value_and_span() {
    assert_eq!(
        toks("\"ab\""),
        vec![Token(TokenKind::StrLit("ab".to_string()), Span(Pos(1, 1), Pos(1, 4)))]
    );
}

#[test]
fn raw_string_takes_rest_of_line() {
    assert_eq!(
        kinds("\\\\hello \"world\" -- no comment"),
        vec![TokenKind::StrLit("hello \"world\" -- no comment".to_string())]
    );
}

#[test]
fn raw_string_is_bounded_by_the_line() {
    assert_eq!(
        kinds("\\\\raw\nnext"),
        vec![
            TokenKind::StrLit("raw".to_string()),
            TokenKind::ExprEnd,
            TokenKind::Name("next".to_string()),
        ]
    );
}

#[test]
fn string_may_embed_line_break() {
    let ts = toks("\"a\nb\"");
    assert_eq!(ts.len(), 1);
    assert_eq!(ts[0].0, TokenKind::StrLit("a\nb".to_string()));
    assert_eq!(ts[0].1, Span(Pos(1, 1), Pos(2, 2)));
}

#[test]
fn trailing_comment_changes_nothing() {
    assert_eq!(toks("foo -- trailing comment"), toks("foo"));
    assert_eq!(toks("-- comment"), vec![]);
    assert_eq!(toks("  -- comment"), vec![]);
}

#[test]
fn comment_needs_two_hyphens() {
    assert_eq!(kinds("-x"), vec![TokenKind::Name("-".to_string()), TokenKind::Name("x".to_string())]);
    assert_eq!(kinds("->"), vec![TokenKind::Name("->".to_string())]);
    assert_eq!(kinds("--x"), vec![]);
}

#[test]
fn names_split_by_class() {
    assert_eq!(
        kinds("a+b"),
        vec![
            TokenKind::Name("a".to_string()),
            TokenKind::Name("+".to_string()),
            TokenKind::Name("b".to_string()),
        ]
    );
    assert_eq!(kinds("foo_bar'!"), vec![TokenKind::Name("foo_bar'!".to_string())]);
    assert_eq!(kinds("::"), vec![TokenKind::Name("::".to_string())]);
    assert_eq!(kinds("_"), vec![TokenKind::Name("_".to_string())]);
    assert_eq!(kinds("x1'"), vec![TokenKind::Name("x1'".to_string())]);
}

#[test]
fn unicode_alphabetic_name() {
    assert_eq!(kinds("héllo"), vec![TokenKind::Name("héllo".to_string())]);
}

#[test]
fn punctuation_tokens() {
    assert_eq!(
        kinds("[ ] { } ,"),
        vec![TokenKind::Lb, TokenKind::Rb, TokenKind::Lc, TokenKind::Rc, TokenKind::Comma]
    );
}

#[test]
fn semicolon_separates() {
    assert_eq!(
        kinds("a;b"),
        vec![
            TokenKind::Name("a".to_string()),
            TokenKind::ExprEnd,
            TokenKind::Name("b".to_string()),
        ]
    );
}

#[test]
fn terminator_separates_lines_with_tokens() {
    assert_eq!(
        kinds("foo\nbar"),
        vec![
            TokenKind::Name("foo".to_string()),
            TokenKind::ExprEnd,
            TokenKind::Name("bar".to_string()),
        ]
    );
    assert_eq!(kinds("\n\nfoo"), vec![TokenKind::Name("foo".to_string())]);
    assert_eq!(
        kinds("foo -- c\nbar"),
        vec![
            TokenKind::Name("foo".to_string()),
            TokenKind::ExprEnd,
            TokenKind::Name("bar".to_string()),
        ]
    );
}

#[test]
fn multi_line_names_have_increasing_lines() {
    let ts = toks("foo\nbar\nbaz");
    let names: Vec<&Token> = ts
        .iter()
        .filter(|t| matches!(t.0, TokenKind::Name(_)))
        .collect();
    assert_eq!(names.len(), 3);
    assert_eq!(names[0].1, Span(Pos(1, 1), Pos(1, 3)));
    assert_eq!(names[1].1, Span(Pos(2, 1), Pos(2, 3)));
    assert_eq!(names[2].1, Span(Pos(3, 1), Pos(3, 3)));
    assert!(names[0].1 .1 .0 < names[1].1 .0 .0);
    assert!(names[1].1 .1 .0 < names[2].1 .0 .0);
}

#[test]
fn number_stops_before_name() {
    assert_eq!(
        kinds("123abc"),
        vec![TokenKind::IntLit(123), TokenKind::Name("abc".to_string())]
    );
}

#[test]
fn semicolon_and_terminator_both_separate() {
    assert_eq!(
        kinds("a;\nb"),
        vec![
            TokenKind::Name("a".to_string()),
            TokenKind::ExprEnd,
            TokenKind::ExprEnd,
            TokenKind::Name("b".to_string()),
        ]
    );
}

#[test]
fn blank_lines_between_tokens_yield_one_separator() {
    assert_eq!(
        kinds("a\n\n\nb"),
        vec![
            TokenKind::Name("a".to_string()),
            TokenKind::ExprEnd,
            TokenKind::Name("b".to_string()),
        ]
    );
}

#[test]
fn terminator_token_span_is_the_terminator() {
    let ts = toks("a\nb");
    assert_eq!(ts[1].0, TokenKind::ExprEnd);
    assert_eq!(ts[1].1, Span(Pos(1, 2), Pos(1, 2)));
}

#[test]
fn unit_literal_does_not_fuse_across_a_line() {
    assert_eq!(kinds("(\n)"), vec![TokenKind::Lp, TokenKind::ExprEnd, TokenKind::Rp]);
}

#[test]
fn more_prefixed_bases() {
    assert_eq!(kinds("0o777"), vec![TokenKind::IntLit(511)]);
    assert_eq!(kinds("0xAbCdEf"), vec![TokenKind::IntLit(0xabcdef)]);
}

#[test]
fn trailing_point_is_a_float() {
    assert_eq!(kinds("1."), vec![TokenKind::FloatLit("1.".to_string())]);
}

#[test]
fn quote_escape_in_char_literal() {
    assert_eq!(kinds("'\\''"), vec![TokenKind::CharLit('\'')]);
    assert_eq!(kinds("'\\\"'"), vec![TokenKind::CharLit('"')]);
}

#[test]
fn comma_continues_a_symbolic_name_but_never_starts_one() {
    assert_eq!(kinds("<,>"), vec![TokenKind::Name("<,>".to_string())]);
    assert_eq!(
        kinds("a, b"),
        vec![
            TokenKind::Name("a".to_string()),
            TokenKind::Comma,
            TokenKind::Name("b".to_string()),
        ]
    );
}

#[test]
fn pull_interface_yields_tokens_then_end() {
    let mut lx = lynx_lexer::lexer::Lexer::new(lynx_lexer::lexer::source_chars("x 1"));
    let t1 = lx.next().unwrap().unwrap();
    assert_eq!(t1.0, TokenKind::Name("x".to_string()));
    let t2 = lx.next().unwrap().unwrap();
    assert_eq!(t2.0, TokenKind::IntLit(1));
    assert!(lx.next().is_none());
    assert!(lx.next().is_none());
}
