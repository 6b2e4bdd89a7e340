//! The token grammar, written as specification functions over the source
//! sequence.
//!
//! Every function here takes the source `s` and a position and describes
//! where a construct beginning there ends and what it denotes. The central
//! predicate is [`token_at`]: it says which token begins at a position and
//! exactly which span of the source it occupies. The executable tokenizer
//! is verified against these definitions.

use vstd::prelude::*;

use crate::chars::{
    is_digit, is_hex_digit, is_name_char, is_name_start, is_newline, is_non_printable,
    is_whitespace, spec_hex_value,
};
use crate::token::{NumLit, Token};

verus! {

/// End of the run of whitespace beginning at `i`.
pub open spec fn ws_end(s: Seq<char>, i: int) -> int
    decreases s.len() - i,
    when 0 <= i <= s.len()
{
    if i == s.len() || !is_whitespace(s[i]) {
        i
    } else {
        ws_end(s, i + 1)
    }
}

pub proof fn lemma_ws_end_bounds(s: Seq<char>, i: int)
    requires
        0 <= i <= s.len(),
    ensures
        i <= ws_end(s, i) <= s.len(),
    decreases s.len() - i,
{
    if i < s.len() && is_whitespace(s[i]) {
        lemma_ws_end_bounds(s, i + 1);
    }
}

/// End of the run of decimal digits beginning at `i`.
pub open spec fn digits_end(s: Seq<char>, i: int) -> int
    decreases s.len() - i,
    when 0 <= i <= s.len()
{
    if i == s.len() || !is_digit(s[i]) {
        i
    } else {
        digits_end(s, i + 1)
    }
}

pub proof fn lemma_digits_end_bounds(s: Seq<char>, i: int)
    requires
        0 <= i <= s.len(),
    ensures
        i <= digits_end(s, i) <= s.len(),
        forall|k: int| i <= k < digits_end(s, i) ==> is_digit(#[trigger] s[k]),
    decreases s.len() - i,
{
    if i < s.len() && is_digit(s[i]) {
        lemma_digits_end_bounds(s, i + 1);
    }
}

/// Position of the `*/` that closes a comment whose body begins at `i`, or
/// the end of the input when the comment is unterminated.
pub open spec fn comment_body_end(s: Seq<char>, i: int) -> int
    decreases s.len() - i,
    when 0 <= i <= s.len()
{
    if i + 2 <= s.len() && s[i] == '*' && s[i + 1] == '/' {
        i
    } else if i < s.len() {
        comment_body_end(s, i + 1)
    } else {
        i
    }
}

pub proof fn lemma_comment_body_end_bounds(s: Seq<char>, i: int)
    requires
        0 <= i <= s.len(),
    ensures
        i <= comment_body_end(s, i) <= s.len(),
        comment_body_end(s, i) < s.len() ==> comment_body_end(s, i) + 2 <= s.len(),
    decreases s.len() - i,
{
    if !(i + 2 <= s.len() && s[i] == '*' && s[i + 1] == '/') && i < s.len() {
        lemma_comment_body_end_bounds(s, i + 1);
    }
}

/// Position just after a comment token that begins at `i` (at the `/` of
/// `/*`): past the closing `*/`, or the end of the input.
pub open spec fn comment_token_end(s: Seq<char>, i: int) -> int {
    if comment_body_end(s, i + 2) < s.len() {
        comment_body_end(s, i + 2) + 2
    } else {
        s.len() as int
    }
}

/// End of a run of at most `limit` hexadecimal digits beginning at `i`.
pub open spec fn hex_end(s: Seq<char>, i: int, limit: int) -> int
    decreases limit,
    when 0 <= i <= s.len() && 0 <= limit
{
    if limit == 0 || i == s.len() || !is_hex_digit(s[i]) {
        i
    } else {
        hex_end(s, i + 1, limit - 1)
    }
}

pub proof fn lemma_hex_end_bounds(s: Seq<char>, i: int, limit: int)
    requires
        0 <= i <= s.len(),
        0 <= limit,
    ensures
        i <= hex_end(s, i, limit) <= s.len(),
        hex_end(s, i, limit) - i <= limit,
    decreases limit,
{
    if !(limit == 0 || i == s.len() || !is_hex_digit(s[i])) {
        lemma_hex_end_bounds(s, i + 1, limit - 1);
    }
}

/// Value of the hexadecimal digits `s[i..j)`, saturated at `0x110000`.
/// Saturation loses nothing: every value above `0x10FFFF` denotes the
/// replacement character.
pub open spec fn hex_value_capped(s: Seq<char>, i: int, j: int) -> int
    decreases j - i,
{
    if j <= i {
        0
    } else {
        let v = hex_value_capped(s, i, j - 1) * 16 + spec_hex_value(s[j - 1]);
        if v > 0x110000 {
            0x110000
        } else if v < 0 {
            0
        } else {
            v
        }
    }
}

/// True when a backslash at `i` begins a valid escape: it is not followed
/// by a line break. A backslash at the very end of the input counts as a
/// valid escape and denotes the replacement character.
pub open spec fn is_valid_escape_at(s: Seq<char>, i: int) -> bool {
    0 <= i < s.len() && s[i] == '\\' && (i + 1 == s.len() || !is_newline(s[i + 1]))
}

/// Position after the escape whose backslash stands at `i`: the backslash,
/// up to six hexadecimal digits, and one following whitespace character
/// (a `\r\n` pair counting as one); or the backslash and a single
/// non-hexadecimal character.
pub open spec fn escape_end(s: Seq<char>, i: int) -> int
    recommends
        is_valid_escape_at(s, i),
{
    if i + 1 >= s.len() {
        s.len() as int
    } else if is_hex_digit(s[i + 1]) {
        let k = hex_end(s, i + 1, 6);
        if k < s.len() && is_whitespace(s[k]) {
            if s[k] == '\r' && k + 1 < s.len() && s[k + 1] == '\n' {
                k + 2
            } else {
                k + 1
            }
        } else {
            k
        }
    } else {
        i + 2
    }
}

/// The character an escape denotes: the value of its hexadecimal digits,
/// or the replacement character when that value is zero, a surrogate, or
/// beyond the last scalar value; or the escaped character itself.
pub open spec fn escape_char(s: Seq<char>, i: int) -> char
    recommends
        is_valid_escape_at(s, i),
{
    if i + 1 >= s.len() {
        '\u{fffd}'
    } else if is_hex_digit(s[i + 1]) {
        let v = hex_value_capped(s, i + 1, hex_end(s, i + 1, 6));
        if v == 0 || (0xd800 <= v && v < 0xe000) || v > 0x10ffff {
            '\u{fffd}'
        } else {
            (v as u32) as char
        }
    } else {
        s[i + 1]
    }
}

pub proof fn lemma_escape_end_bounds(s: Seq<char>, i: int)
    requires
        0 <= i < s.len(),
    ensures
        i < escape_end(s, i) <= s.len(),
{
    if i + 1 < s.len() && is_hex_digit(s[i + 1]) {
        lemma_hex_end_bounds(s, i + 1, 6);
    }
}

/// End of the name (identifier body) beginning at `i`: name characters and
/// valid escapes.
pub open spec fn name_end(s: Seq<char>, i: int) -> int
    decreases s.len() - i,
    when 0 <= i <= s.len()
{
    if i == s.len() {
        i
    } else if is_name_char(s[i]) {
        name_end(s, i + 1)
    } else if is_valid_escape_at(s, i) {
        proof {
            lemma_escape_end_bounds(s, i);
        }
        name_end(s, escape_end(s, i))
    } else {
        i
    }
}

pub proof fn lemma_name_end_bounds(s: Seq<char>, i: int)
    requires
        0 <= i <= s.len(),
    ensures
        i <= name_end(s, i) <= s.len(),
    decreases s.len() - i,
{
    if i < s.len() {
        if is_name_char(s[i]) {
            lemma_name_end_bounds(s, i + 1);
        } else if is_valid_escape_at(s, i) {
            lemma_escape_end_bounds(s, i);
            lemma_name_end_bounds(s, escape_end(s, i));
        }
    }
}

pub proof fn lemma_name_end_progress(s: Seq<char>, i: int)
    requires
        0 <= i < s.len(),
        is_name_char(s[i]) || is_valid_escape_at(s, i),
    ensures
        i < name_end(s, i) <= s.len(),
{
    if is_name_char(s[i]) {
        lemma_name_end_bounds(s, i + 1);
    } else {
        lemma_escape_end_bounds(s, i);
        lemma_name_end_bounds(s, escape_end(s, i));
    }
}

/// The decoded text of the name beginning at `i`.
pub open spec fn name_decoded(s: Seq<char>, i: int) -> Seq<char>
    decreases s.len() - i,
    when 0 <= i <= s.len()
{
    if i == s.len() {
        Seq::empty()
    } else if is_name_char(s[i]) {
        seq![s[i]] + name_decoded(s, i + 1)
    } else if is_valid_escape_at(s, i) {
        proof {
            lemma_escape_end_bounds(s, i);
        }
        seq![escape_char(s, i)] + name_decoded(s, escape_end(s, i))
    } else {
        Seq::empty()
    }
}

/// True when the three code points beginning at `i` would start an
/// identifier.
pub open spec fn starts_ident_at(s: Seq<char>, i: int) -> bool {
    if i >= s.len() || i < 0 {
        false
    } else if s[i] == '-' {
        i + 1 < s.len() && (is_name_start(s[i + 1]) || s[i + 1] == '-' || is_valid_escape_at(
            s,
            i + 1,
        ))
    } else if is_name_start(s[i]) {
        true
    } else {
        is_valid_escape_at(s, i)
    }
}

/// True when the three code points beginning at `i` would start a number.
pub open spec fn starts_number_at(s: Seq<char>, i: int) -> bool {
    if i >= s.len() || i < 0 {
        false
    } else if s[i] == '+' || s[i] == '-' {
        (i + 1 < s.len() && is_digit(s[i + 1])) || (i + 2 < s.len() && s[i + 1] == '.' && is_digit(
            s[i + 2],
        ))
    } else if s[i] == '.' {
        i + 1 < s.len() && is_digit(s[i + 1])
    } else {
        is_digit(s[i])
    }
}

/// Position after the sign of a numeric literal beginning at `i`.
pub open spec fn num_sign_end(s: Seq<char>, i: int) -> int {
    if 0 <= i < s.len() && (s[i] == '+' || s[i] == '-') {
        i + 1
    } else {
        i
    }
}

/// End of the integer digits of a numeric literal beginning at `i`.
pub open spec fn num_int_end(s: Seq<char>, i: int) -> int {
    digits_end(s, num_sign_end(s, i))
}

/// True when the literal beginning at `i` has a decimal point with digits.
pub open spec fn num_has_frac(s: Seq<char>, i: int) -> bool {
    let d1 = num_int_end(s, i);
    d1 + 1 < s.len() && s[d1] == '.' && is_digit(s[d1 + 1])
}

/// End of the fraction digits (or of the integer digits when there is no
/// fraction) of a numeric literal beginning at `i`.
pub open spec fn num_frac_end(s: Seq<char>, i: int) -> int {
    if num_has_frac(s, i) {
        digits_end(s, num_int_end(s, i) + 1)
    } else {
        num_int_end(s, i)
    }
}

/// True when the literal beginning at `i` has an exponent: `e` or `E`,
/// an optional sign, and at least one digit.
pub open spec fn num_has_exp(s: Seq<char>, i: int) -> bool {
    let d2 = num_frac_end(s, i);
    d2 < s.len() && (s[d2] == 'e' || s[d2] == 'E') && ((d2 + 1 < s.len() && is_digit(s[d2 + 1]))
        || (d2 + 2 < s.len() && (s[d2 + 1] == '+' || s[d2 + 1] == '-') && is_digit(s[d2 + 2])))
}

/// Position of the first exponent digit of the literal beginning at `i`.
pub open spec fn num_exp_digits_start(s: Seq<char>, i: int) -> int
    recommends
        num_has_exp(s, i),
{
    let d2 = num_frac_end(s, i);
    if d2 + 1 < s.len() && is_digit(s[d2 + 1]) {
        d2 + 1
    } else {
        d2 + 2
    }
}

/// Position after the whole numeric literal beginning at `i`.
pub open spec fn number_end(s: Seq<char>, i: int) -> int {
    if num_has_exp(s, i) {
        digits_end(s, num_exp_digits_start(s, i))
    } else {
        num_frac_end(s, i)
    }
}

pub proof fn lemma_number_end_bounds(s: Seq<char>, i: int)
    requires
        0 <= i <= s.len(),
        starts_number_at(s, i),
    ensures
        i < number_end(s, i) <= s.len(),
{
    let s0 = num_sign_end(s, i);
    let d1 = num_int_end(s, i);
    let d2 = num_frac_end(s, i);
    lemma_digits_end_bounds(s, s0);
    if s0 < s.len() && is_digit(s[s0]) {
        lemma_digits_end_bounds(s, s0 + 1);
    }
    if num_has_frac(s, i) {
        lemma_digits_end_bounds(s, d1 + 2);
    }
    if num_has_exp(s, i) {
        lemma_digits_end_bounds(s, num_exp_digits_start(s, i));
    }
}

/// Ties a [`NumLit`] to the literal written at `s[i..number_end(s, i))`:
/// each field is exactly the corresponding segment of the source.
pub open spec fn num_lit_at(s: Seq<char>, i: int, n: NumLit) -> bool {
    let s0 = num_sign_end(s, i);
    let d1 = num_int_end(s, i);
    let d2 = num_frac_end(s, i);
    &&& n.sign == (if s0 > i {
        Some(s[i])
    } else {
        None::<char>
    })
    &&& n.int_part@ == s.subrange(s0, d1)
    &&& n.frac_part@ == (if num_has_frac(s, i) {
        s.subrange(d1 + 1, d2)
    } else {
        Seq::<char>::empty()
    })
    &&& n.exp_marker == (if num_has_exp(s, i) {
        Some(s[d2])
    } else {
        None::<char>
    })
    &&& n.exp_sign == (if num_has_exp(s, i) && num_exp_digits_start(s, i) == d2 + 2 {
        Some(s[d2 + 1])
    } else {
        None::<char>
    })
    &&& n.exp_part@ == (if num_has_exp(s, i) {
        s.subrange(num_exp_digits_start(s, i), number_end(s, i))
    } else {
        Seq::<char>::empty()
    })
}

/// Scan of a quoted string body beginning at `i`, just after the opening
/// quote `q`: the position after the token and whether the closing quote
/// was found. A raw line break ends the token without being consumed; the
/// escaped pair `\` + line break is a line continuation.
pub open spec fn string_scan(s: Seq<char>, i: int, q: char) -> (int, bool)
    decreases s.len() - i,
    when 0 <= i <= s.len()
{
    if i == s.len() {
        (i, false)
    } else if s[i] == q {
        (i + 1, true)
    } else if is_newline(s[i]) {
        (i, false)
    } else if s[i] == '\\' {
        if i + 1 == s.len() {
            (s.len() as int, false)
        } else if is_newline(s[i + 1]) {
            let j = if s[i + 1] == '\r' && i + 2 < s.len() && s[i + 2] == '\n' {
                i + 3
            } else {
                i + 2
            };
            string_scan(s, j, q)
        } else {
            proof {
                lemma_escape_end_bounds(s, i);
            }
            string_scan(s, escape_end(s, i), q)
        }
    } else {
        string_scan(s, i + 1, q)
    }
}

pub proof fn lemma_string_scan_bounds(s: Seq<char>, i: int, q: char)
    requires
        0 <= i <= s.len(),
    ensures
        i <= string_scan(s, i, q).0 <= s.len(),
    decreases s.len() - i,
{
    if i < s.len() && s[i] != q && !is_newline(s[i]) {
        if s[i] == '\\' {
            if i + 1 == s.len() {
            } else if is_newline(s[i + 1]) {
                if s[i + 1] == '\r' && i + 2 < s.len() && s[i + 2] == '\n' {
                    lemma_string_scan_bounds(s, i + 3, q);
                } else {
                    lemma_string_scan_bounds(s, i + 2, q);
                }
            } else {
                lemma_escape_end_bounds(s, i);
                lemma_string_scan_bounds(s, escape_end(s, i), q);
            }
        } else {
            lemma_string_scan_bounds(s, i + 1, q);
        }
    }
}

/// The decoded contents of the string body beginning at `i`: every escape
/// decoded, line continuations dropped, ending at the closing quote, a raw
/// line break, or the end of the input.
pub open spec fn string_decoded(s: Seq<char>, i: int, q: char) -> Seq<char>
    decreases s.len() - i,
    when 0 <= i <= s.len()
{
    if i == s.len() {
        Seq::empty()
    } else if s[i] == q {
        Seq::empty()
    } else if is_newline(s[i]) {
        Seq::empty()
    } else if s[i] == '\\' {
        if i + 1 == s.len() {
            Seq::empty()
        } else if is_newline(s[i + 1]) {
            let j = if s[i + 1] == '\r' && i + 2 < s.len() && s[i + 2] == '\n' {
                i + 3
            } else {
                i + 2
            };
            string_decoded(s, j, q)
        } else {
            proof {
                lemma_escape_end_bounds(s, i);
            }
            seq![escape_char(s, i)] + string_decoded(s, escape_end(s, i), q)
        }
    } else {
        seq![s[i]] + string_decoded(s, i + 1, q)
    }
}

/// Recovery after a malformed url: skip to just past the closing `)`, or
/// to (not past) a line break, or to the end of the input.
pub open spec fn bad_url_end(s: Seq<char>, i: int) -> int
    decreases s.len() - i,
    when 0 <= i <= s.len()
{
    if i == s.len() {
        i
    } else if s[i] == ')' {
        i + 1
    } else if is_newline(s[i]) {
        i
    } else {
        bad_url_end(s, i + 1)
    }
}

pub proof fn lemma_bad_url_end_bounds(s: Seq<char>, i: int)
    requires
        0 <= i <= s.len(),
    ensures
        i <= bad_url_end(s, i) <= s.len(),
    decreases s.len() - i,
{
    if i < s.len() && s[i] != ')' && !is_newline(s[i]) {
        lemma_bad_url_end_bounds(s, i + 1);
    }
}

/// Scan of an unquoted url body beginning at `i`, past `url(` and any
/// leading whitespace: the position after the token and whether it is well
/// formed. Further whitespace may only precede the closing parenthesis; a
/// quote, an opening parenthesis, a non-printable character, or a
/// backslash before a line break makes the url malformed.
pub open spec fn url_scan(s: Seq<char>, i: int) -> (int, bool)
    decreases s.len() - i,
    when 0 <= i <= s.len()
{
    if i == s.len() {
        (i, true)
    } else if s[i] == ')' {
        (i + 1, true)
    } else if is_whitespace(s[i]) {
        proof {
            lemma_ws_end_bounds(s, i);
        }
        let w = ws_end(s, i);
        if w == s.len() {
            (w, true)
        } else if s[w] == ')' {
            (w + 1, true)
        } else {
            proof {
                lemma_bad_url_end_bounds(s, w);
            }
            (bad_url_end(s, w), false)
        }
    } else if s[i] == '"' || s[i] == '\'' || s[i] == '(' || is_non_printable(s[i]) {
        (bad_url_end(s, i), false)
    } else if s[i] == '\\' {
        if is_valid_escape_at(s, i) {
            proof {
                lemma_escape_end_bounds(s, i);
            }
            url_scan(s, escape_end(s, i))
        } else {
            (bad_url_end(s, i), false)
        }
    } else {
        url_scan(s, i + 1)
    }
}

pub proof fn lemma_url_scan_bounds(s: Seq<char>, i: int)
    requires
        0 <= i <= s.len(),
    ensures
        i <= url_scan(s, i).0 <= s.len(),
    decreases s.len() - i,
{
    if i < s.len() && s[i] != ')' {
        if is_whitespace(s[i]) {
            lemma_ws_end_bounds(s, i);
            if ws_end(s, i) < s.len() && s[ws_end(s, i)] != ')' {
                lemma_bad_url_end_bounds(s, ws_end(s, i));
            }
        } else if s[i] == '"' || s[i] == '\'' || s[i] == '(' || is_non_printable(s[i]) {
            lemma_bad_url_end_bounds(s, i);
        } else if s[i] == '\\' {
            if is_valid_escape_at(s, i) {
                lemma_escape_end_bounds(s, i);
                lemma_url_scan_bounds(s, escape_end(s, i));
            } else {
                lemma_bad_url_end_bounds(s, i);
            }
        } else {
            lemma_url_scan_bounds(s, i + 1);
        }
    }
}

/// The decoded contents of the url body beginning at `i`: content
/// characters and decoded escapes, up to the first whitespace, closing
/// parenthesis, malformed character, or end of input.
pub open spec fn url_decoded(s: Seq<char>, i: int) -> Seq<char>
    decreases s.len() - i,
    when 0 <= i <= s.len()
{
    if i == s.len() {
        Seq::empty()
    } else if s[i] == ')' {
        Seq::empty()
    } else if is_whitespace(s[i]) {
        Seq::empty()
    } else if s[i] == '"' || s[i] == '\'' || s[i] == '(' || is_non_printable(s[i]) {
        Seq::empty()
    } else if s[i] == '\\' {
        if is_valid_escape_at(s, i) {
            proof {
                lemma_escape_end_bounds(s, i);
            }
            seq![escape_char(s, i)] + url_decoded(s, escape_end(s, i))
        } else {
            Seq::empty()
        }
    } else {
        seq![s[i]] + url_decoded(s, i + 1)
    }
}

/// True when a line break begins at `i`: a line feed or form feed, or a
/// carriage return not followed by a line feed (a `\r\n` pair counts as
/// one break, at its line feed).
pub open spec fn newline_starts_at(s: Seq<char>, i: int) -> bool {
    0 <= i < s.len() && (s[i] == '\n' || s[i] == '\u{c}' || (s[i] == '\r' && !(i + 1 < s.len()
        && s[i + 1] == '\n')))
}

/// Number of line breaks in `s[0..i)`, a `\r\n` pair counting once.
pub open spec fn line_breaks_before(s: Seq<char>, i: int) -> int
    decreases i,
{
    if i <= 0 {
        0
    } else {
        line_breaks_before(s, i - 1) + (if newline_starts_at(s, i - 1) {
            1int
        } else {
            0int
        })
    }
}

/// True when a line break ends at position `i`: its characters lie just
/// before `i` and it is not the carriage return of a `\r\n` pair.
pub open spec fn newline_ends_at(s: Seq<char>, i: int) -> bool {
    0 < i <= s.len() && (s[i - 1] == '\n' || s[i - 1] == '\u{c}' || (s[i - 1] == '\r' && !(i
        < s.len() && s[i] == '\n')))
}

/// Start of the line containing position `i`: the position just after the
/// last line break ending at or before `i`.
pub open spec fn line_start_before(s: Seq<char>, i: int) -> int
    decreases i,
{
    if i <= 0 {
        0
    } else if newline_ends_at(s, i) {
        i
    } else {
        line_start_before(s, i - 1)
    }
}

/// The name `url`, compared without regard to ASCII case.
pub open spec fn is_url_name(nm: Seq<char>) -> bool {
    nm.len() == 3 && (nm[0] == 'u' || nm[0] == 'U') && (nm[1] == 'r' || nm[1] == 'R') && (nm[2]
        == 'l' || nm[2] == 'L')
}

/// True when the ident-like token beginning at `i` is an unquoted url: the
/// name is `url`, `(` follows it, and the first non-whitespace character
/// after the `(` is not a quote. (With a quote there, the name and the
/// parenthesis are returned as separate tokens and the quoted string
/// follows on its own.)
pub open spec fn is_unquoted_url_at(s: Seq<char>, i: int) -> bool {
    let ne = name_end(s, i);
    &&& is_url_name(name_decoded(s, i))
    &&& 0 <= ne < s.len() && s[ne] == '('
    &&& {
        let w = ws_end(s, ne + 1);
        w == s.len() || (s[w] != '"' && s[w] != '\'')
    }
}

/// The token denoted by the quoted string beginning at `p` (at the opening
/// quote) and its extent.
pub open spec fn string_token_at(s: Seq<char>, p: int, t: Token, q: int) -> bool {
    let r = string_scan(s, p + 1, s[p]);
    &&& q == r.0
    &&& (if r.1 {
        t matches Token::QuotedString(v) && v@ == string_decoded(s, p + 1, s[p])
    } else {
        t matches Token::BadString(v) && v@ == string_decoded(s, p + 1, s[p])
    })
}

/// The token denoted by the numeric literal beginning at `p` and its
/// extent: a dimension when an identifier follows, a percentage when `%`
/// follows, otherwise a plain number.
pub open spec fn numeric_token_at(s: Seq<char>, p: int, t: Token, q: int) -> bool {
    let ne = number_end(s, p);
    if starts_ident_at(s, ne) {
        t matches Token::Dimension(n, u) && num_lit_at(s, p, n) && n.wf() && u@ == name_decoded(
            s,
            ne,
        ) && q == name_end(s, ne)
    } else if 0 <= ne < s.len() && s[ne] == '%' {
        t matches Token::Percentage(n) && num_lit_at(s, p, n) && n.wf() && q == ne + 1
    } else {
        t matches Token::Number(n) && num_lit_at(s, p, n) && n.wf() && q == ne
    }
}

/// The token denoted by the ident-like construct beginning at `p` and its
/// extent: an unquoted url token (whose leading whitespace is skipped), or
/// a plain identifier.
pub open spec fn ident_token_at(s: Seq<char>, p: int, t: Token, q: int) -> bool {
    if is_unquoted_url_at(s, p) {
        let ne = name_end(s, p);
        let w = ws_end(s, ne + 1);
        let r = url_scan(s, w);
        &&& q == r.0
        &&& (if r.1 {
            t matches Token::Url(v) && v@ == url_decoded(s, w)
        } else {
            t matches Token::BadUrl(v) && v@ == url_decoded(s, w)
        })
    } else {
        t matches Token::Ident(v) && v@ == name_decoded(s, p) && q == name_end(s, p)
    }
}

/// The token grammar. `token_at(s, p, t, q)` says that the token beginning
/// at position `p` of `s` is `t` and that it occupies exactly `s[p..q)`.
/// At the end of the input the token is `Eof` with an empty span.
/// (Opaque: provers that dispatch on the grammar reveal it.)
#[verifier::opaque]
pub open spec fn token_at(s: Seq<char>, p: int, t: Token, q: int) -> bool {
    if p == s.len() {
        t == Token::Eof && q == p
    } else if !(0 <= p < s.len()) {
        false
    } else {
        let c = s[p];
        if is_whitespace(c) {
            t == Token::Whitespace && q == ws_end(s, p)
        } else if c == '/' && p + 1 < s.len() && s[p + 1] == '*' {
            t matches Token::Comment(v) && v@ == s.subrange(p + 2, comment_body_end(s, p + 2))
                && q == comment_token_end(s, p)
        } else if c == '"' || c == '\'' {
            string_token_at(s, p, t, q)
        } else if c == '#' {
            if p + 1 < s.len() && (is_name_char(s[p + 1]) || is_valid_escape_at(s, p + 1)) {
                t matches Token::Hash(v, id) && v@ == name_decoded(s, p + 1) && id
                    == starts_ident_at(s, p + 1) && q == name_end(s, p + 1)
            } else {
                t == Token::Delim('#') && q == p + 1
            }
        } else if c == '+' {
            if starts_number_at(s, p) {
                numeric_token_at(s, p, t, q)
            } else {
                t == Token::Delim('+') && q == p + 1
            }
        } else if c == '-' {
            if starts_number_at(s, p) {
                numeric_token_at(s, p, t, q)
            } else if p + 2 < s.len() && s[p + 1] == '-' && s[p + 2] == '>' {
                t == Token::Cdc && q == p + 3
            } else if starts_ident_at(s, p) {
                ident_token_at(s, p, t, q)
            } else {
                t == Token::Delim('-') && q == p + 1
            }
        } else if c == '.' {
            if starts_number_at(s, p) {
                numeric_token_at(s, p, t, q)
            } else {
                t == Token::Delim('.') && q == p + 1
            }
        } else if c == '<' {
            if p + 4 <= s.len() && s[p + 1] == '!' && s[p + 2] == '-' && s[p + 3] == '-' {
                t == Token::Cdo && q == p + 4
            } else {
                t == Token::Delim('<') && q == p + 1
            }
        } else if c == '@' {
            if starts_ident_at(s, p + 1) {
                t matches Token::AtKeyword(v) && v@ == name_decoded(s, p + 1) && q == name_end(
                    s,
                    p + 1,
                )
            } else {
                t == Token::Delim('@') && q == p + 1
            }
        } else if c == '\\' {
            if is_valid_escape_at(s, p) {
                ident_token_at(s, p, t, q)
            } else {
                t == Token::Delim('\\') && q == p + 1
            }
        } else if is_digit(c) {
            numeric_token_at(s, p, t, q)
        } else if is_name_start(c) {
            ident_token_at(s, p, t, q)
        } else if c == ':' {
            t == Token::Colon && q == p + 1
        } else if c == ';' {
            t == Token::Semicolon && q == p + 1
        } else if c == ',' {
            t == Token::Comma && q == p + 1
        } else if c == '(' {
            t == Token::ParenOpen && q == p + 1
        } else if c == ')' {
            t == Token::ParenClose && q == p + 1
        } else if c == '[' {
            t == Token::SquareOpen && q == p + 1
        } else if c == ']' {
            t == Token::SquareClose && q == p + 1
        } else if c == '{' {
            t == Token::CurlyOpen && q == p + 1
        } else if c == '}' {
            t == Token::CurlyClose && q == p + 1
        } else {
            t == Token::Delim(c) && q == p + 1
        }
    }
}

} // verus!
