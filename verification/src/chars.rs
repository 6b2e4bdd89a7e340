//! Character classes of the CSS token grammar.
//!
//! Each class exists as a spec function and as an executable function that
//! returns it; the executable ones may also be used directly in
//! specifications.

use vstd::prelude::*;

verus! {

/// Line breaks: line feed, carriage return, form feed.
pub open spec fn spec_is_newline(c: char) -> bool {
    c == '\n' || c == '\r' || c == '\u{c}'
}

#[verifier::when_used_as_spec(spec_is_newline)]
pub fn is_newline(c: char) -> (b: bool)
    ensures
        b == spec_is_newline(c),
{
    c == '\n' || c == '\r' || c == '\u{c}'
}

/// Whitespace: space, tab, or a line break.
pub open spec fn spec_is_whitespace(c: char) -> bool {
    c == ' ' || c == '\t' || spec_is_newline(c)
}

#[verifier::when_used_as_spec(spec_is_whitespace)]
pub fn is_whitespace(c: char) -> (b: bool)
    ensures
        b == spec_is_whitespace(c),
{
    c == ' ' || c == '\t' || is_newline(c)
}

/// A decimal digit.
pub open spec fn spec_is_digit(c: char) -> bool {
    48 <= c as u32 && c as u32 <= 57
}

#[verifier::when_used_as_spec(spec_is_digit)]
pub fn is_digit(c: char) -> (b: bool)
    ensures
        b == spec_is_digit(c),
{
    let u = c as u32;
    48 <= u && u <= 57
}

/// A hexadecimal digit.
pub open spec fn spec_is_hex_digit(c: char) -> bool {
    spec_is_digit(c) || (97 <= c as u32 && c as u32 <= 102) || (65 <= c as u32 && c as u32 <= 70)
}

#[verifier::when_used_as_spec(spec_is_hex_digit)]
pub fn is_hex_digit(c: char) -> (b: bool)
    ensures
        b == spec_is_hex_digit(c),
{
    let u = c as u32;
    is_digit(c) || (97 <= u && u <= 102) || (65 <= u && u <= 70)
}

/// The numeric value of a hexadecimal digit.
pub open spec fn spec_hex_value(c: char) -> int {
    if spec_is_digit(c) {
        c as u32 - 48
    } else if 97 <= c as u32 && c as u32 <= 102 {
        c as u32 - 87
    } else {
        c as u32 - 55
    }
}

pub fn hex_value(c: char) -> (v: u32)
    requires
        spec_is_hex_digit(c),
    ensures
        v == spec_hex_value(c),
        v < 16,
{
    let u = c as u32;
    if 48 <= u && u <= 57 {
        u - 48
    } else if 97 <= u && u <= 102 {
        u - 87
    } else {
        u - 55
    }
}

/// A character that may begin a name: an ASCII letter, an underscore, or any
/// character outside the ASCII range.
pub open spec fn spec_is_name_start(c: char) -> bool {
    (97 <= c as u32 && c as u32 <= 122) || (65 <= c as u32 && c as u32 <= 90) || c == '_' || c
        as u32 >= 128
}

#[verifier::when_used_as_spec(spec_is_name_start)]
pub fn is_name_start(c: char) -> (b: bool)
    ensures
        b == spec_is_name_start(c),
{
    let u = c as u32;
    (97 <= u && u <= 122) || (65 <= u && u <= 90) || c == '_' || u >= 128
}

/// A character that may continue a name: a name-start character, a digit, or
/// a hyphen.
pub open spec fn spec_is_name_char(c: char) -> bool {
    spec_is_name_start(c) || spec_is_digit(c) || c == '-'
}

#[verifier::when_used_as_spec(spec_is_name_char)]
pub fn is_name_char(c: char) -> (b: bool)
    ensures
        b == spec_is_name_char(c),
{
    is_name_start(c) || is_digit(c) || c == '-'
}

/// Relies on core's `char::from_u32`: it returns the character with the
/// given scalar value exactly when that value is a Unicode scalar value,
/// that is, below the surrogate range or between its end and 0x10FFFF.
pub assume_specification[ char::from_u32 ](v: u32) -> (r: Option<char>)
    ensures
        r is Some <==> (v < 0xd800 || (0xe000 <= v && v <= 0x10ffff)),
        (r matches Some(c) ==> c as u32 == v),
;

/// A control character that may not appear raw inside an unquoted url.
pub open spec fn spec_is_non_printable(c: char) -> bool {
    c as u32 <= 8 || c as u32 == 11 || (14 <= c as u32 && c as u32 <= 31) || c as u32 == 127
}

#[verifier::when_used_as_spec(spec_is_non_printable)]
pub fn is_non_printable(c: char) -> (b: bool)
    ensures
        b == spec_is_non_printable(c),
{
    let u = c as u32;
    u <= 8 || u == 11 || (14 <= u && u <= 31) || u == 127
}

} // verus!
