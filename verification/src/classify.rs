//! Character classification.
//!
//! The scanner decides every dispatch on the classes below.  The ASCII
//! part of each class is written out, so that reasoning about ASCII source
//! text needs no assumption; outside ASCII the classes follow the Unicode
//! tables through `char::is_whitespace`, `char::is_alphabetic` and
//! `char::is_alphanumeric`, whose results are named but not spelled out.

use vstd::prelude::*;

verus! {

/// What `char::is_whitespace` returns on a character beyond ASCII.
pub uninterp spec fn unicode_whitespace(c: char) -> bool;

/// What `char::is_alphabetic` returns on a character beyond ASCII.
pub uninterp spec fn unicode_alphabetic(c: char) -> bool;

/// What `char::is_alphanumeric` returns on a character beyond ASCII.
pub uninterp spec fn unicode_alphanumeric(c: char) -> bool;

/// Whitespace.  On ASCII these are exactly the characters with the
/// Unicode `White_Space` property: space, tab, line feed, vertical tab,
/// form feed and carriage return.
pub open spec fn is_ws_char(c: char) -> bool {
    if (c as u32) < 128 {
        c == ' ' || c == '\t' || c == '\n' || c == '\u{b}' || c == '\u{c}' || c == '\r'
    } else {
        unicode_whitespace(c)
    }
}

/// Alphabetic characters.  On ASCII these are exactly the letters.
pub open spec fn is_alpha_char(c: char) -> bool {
    if (c as u32) < 128 {
        (0x41 <= c as u32 && c as u32 <= 0x5a) || (0x61 <= c as u32 && c as u32 <= 0x7a)
    } else {
        unicode_alphabetic(c)
    }
}

/// Alphanumeric characters.  On ASCII these are exactly the letters and
/// the decimal digits.
pub open spec fn is_alnum_char(c: char) -> bool {
    if (c as u32) < 128 {
        (0x41 <= c as u32 && c as u32 <= 0x5a) || (0x61 <= c as u32 && c as u32 <= 0x7a) || (
        0x30 <= c as u32 && c as u32 <= 0x39)
    } else {
        unicode_alphanumeric(c)
    }
}

/// Relies on `char::is_whitespace`: true exactly for characters with the
/// Unicode `White_Space` property; on ASCII these are space, tab, line
/// feed, vertical tab, form feed and carriage return.
pub assume_specification[ char::is_whitespace ](c: char) -> (r: bool)
    ensures
        r == is_ws_char(c),
        (c as u32) >= 128 ==> r == unicode_whitespace(c),
;

/// Relies on `char::is_alphabetic`: true exactly for characters with the
/// Unicode `Alphabetic` property; on ASCII these are the letters.
pub assume_specification[ char::is_alphabetic ](c: char) -> (r: bool)
    ensures
        r == is_alpha_char(c),
        (c as u32) >= 128 ==> r == unicode_alphabetic(c),
;

/// Relies on `char::is_alphanumeric`: true exactly for characters that are
/// alphabetic or in a Unicode number category; on ASCII these are the
/// letters and the decimal digits.
pub assume_specification[ char::is_alphanumeric ](c: char) -> (r: bool)
    ensures
        r == is_alnum_char(c),
        (c as u32) >= 128 ==> r == unicode_alphanumeric(c),
;

/// A Unicode scalar value: any code point except the surrogate range.
pub open spec fn valid_scalar(v: int) -> bool {
    (0 <= v && v < 0xd800) || (0xdfff < v && v <= 0x10ffff)
}

/// Relies on `char::from_u32`: `Some` exactly when the value is a Unicode
/// scalar value (not a surrogate, at most `char::MAX`), and the resulting
/// character has that value.
pub assume_specification[ char::from_u32 ](v: u32) -> (r: Option<char>)
    ensures
        r == (if valid_scalar(v as int) {
            Some(v as char)
        } else {
            None::<char>
        }),
;

/// ASCII decimal digits.
pub open spec fn is_digit_char(c: char) -> bool {
    0x30 <= c as u32 && c as u32 <= 0x39
}

/// ASCII hexadecimal digits, either case.
pub open spec fn is_hex_digit_char(c: char) -> bool {
    is_digit_char(c) || (0x41 <= c as u32 && c as u32 <= 0x46) || (0x61 <= c as u32 && c as u32
        <= 0x66)
}

/// The digits accepted in a number literal of the given base.
pub open spec fn is_base_digit(c: char, base: int) -> bool {
    if base == 16 {
        is_hex_digit_char(c)
    } else if base == 8 {
        0x30 <= c as u32 && c as u32 <= 0x37
    } else if base == 2 {
        c == '0' || c == '1'
    } else {
        is_digit_char(c)
    }
}

/// The numeric value of a digit character, in any base that accepts it.
pub open spec fn digit_value(c: char) -> int {
    if is_digit_char(c) {
        c as u32 - 0x30
    } else if 0x41 <= c as u32 && c as u32 <= 0x46 {
        c as u32 - 0x41 + 10
    } else {
        c as u32 - 0x61 + 10
    }
}

/// The characters that may stand in a symbolic name.  The statement
/// separator `,` can continue a symbolic name but never start one, since
/// single-character punctuation is classified first.
pub open spec fn is_sym_char(c: char) -> bool {
    c == '~' || c == '`' || c == '!' || c == '@' || c == '#' || c == '$' || c == '%' || c == '^'
        || c == '&' || c == '*' || c == '-' || c == '+' || c == '=' || c == '|' || c == '\\' || c
        == ':' || c == '\'' || c == '<' || c == ',' || c == '>' || c == '.' || c == '?' || c == '/'
}

/// Whether `c` may open a name of the alphabetic class.
pub open spec fn is_alpha_start(c: char) -> bool {
    is_alpha_char(c) || c == '_'
}

/// Whether `c` may continue a name of the alphabetic class.
pub open spec fn is_alpha_cont(c: char) -> bool {
    is_alnum_char(c) || c == '_' || c == '\'' || c == '!'
}

/// Decides [`is_digit_char`] executably.
pub fn digit_char(c: char) -> (r: bool)
    ensures
        r == is_digit_char(c),
{
    let u = c as u32;
    0x30 <= u && u <= 0x39
}

/// Decides [`is_base_digit`] executably.
pub fn base_digit(c: char, base: u32) -> (r: bool)
    ensures
        r == is_base_digit(c, base as int),
{
    let u = c as u32;
    if base == 16 {
        (0x30 <= u && u <= 0x39) || (0x41 <= u && u <= 0x46) || (0x61 <= u && u <= 0x66)
    } else if base == 8 {
        0x30 <= u && u <= 0x37
    } else if base == 2 {
        u == 0x30 || u == 0x31
    } else {
        0x30 <= u && u <= 0x39
    }
}

/// Computes [`digit_value`] executably.
pub fn digit_val(c: char) -> (r: u32)
    requires
        is_hex_digit_char(c),
    ensures
        r as int == digit_value(c),
        r < 16,
{
    let u = c as u32;
    if 0x30 <= u && u <= 0x39 {
        u - 0x30
    } else if 0x41 <= u && u <= 0x46 {
        u - 0x41 + 10
    } else {
        u - 0x61 + 10
    }
}

/// Decides [`is_sym_char`] executably.
pub fn sym_char(c: char) -> (r: bool)
    ensures
        r == is_sym_char(c),
{
    c == '~' || c == '`' || c == '!' || c == '@' || c == '#' || c == '$' || c == '%' || c == '^'
        || c == '&' || c == '*' || c == '-' || c == '+' || c == '=' || c == '|' || c == '\\' || c
        == ':' || c == '\'' || c == '<' || c == ',' || c == '>' || c == '.' || c == '?' || c == '/'
}

} // verus!
