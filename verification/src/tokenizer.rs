//! The executable tokenizer, verified against the grammar in [`crate::scan`].

use vstd::prelude::*;

use crate::chars::{hex_value, is_digit, is_hex_digit, is_name_char, is_name_start, is_newline,
    is_non_printable, is_whitespace};
use crate::scan::{bad_url_end, comment_body_end, comment_token_end, digits_end, escape_char,
    escape_end, hex_end, hex_value_capped, ident_token_at, is_unquoted_url_at,
    is_valid_escape_at, lemma_comment_body_end_bounds, lemma_digits_end_bounds,
    lemma_escape_end_bounds, lemma_name_end_bounds, lemma_name_end_progress,
    lemma_number_end_bounds, lemma_string_scan_bounds, lemma_url_scan_bounds,
    lemma_ws_end_bounds,
    name_decoded, name_end, num_exp_digits_start, num_frac_end, num_has_exp, num_has_frac,
    line_breaks_before, line_start_before, newline_ends_at, newline_starts_at, num_int_end,
    num_lit_at, num_sign_end, number_end, numeric_token_at, starts_ident_at, starts_number_at,
    string_decoded, string_scan, string_token_at, token_at, url_decoded, url_scan, ws_end};
use crate::chars::spec_is_digit;
use crate::token::{NumLit, Token};

verus! {

/// A tokenizer over a fully materialized source text. The source is a
/// sequence of Unicode scalar values owned by the tokenizer; the cursor is
/// a plain offset into it and never moves backward across a returned token.
pub struct Tokenizer {
    /// The source text.
    pub src: Vec<char>,
    /// The scan position: the index of the next character to consume.
    pub pos: usize,
}

impl Tokenizer {
    /// The cursor stays within the source.
    pub open spec fn wf(self) -> bool {
        self.pos <= self.src@.len()
    }

    /// Builds a tokenizer over `src`, positioned at its start. Every text,
    /// including the empty one, is valid input.
    pub fn new(src: Vec<char>) -> (t: Tokenizer)
        ensures
            t.wf(),
            t.src@ == src@,
            t.pos == 0,
    {
        Tokenizer { src, pos: 0 }
    }

    /// Advances the cursor past the run of whitespace at the cursor.
    fn skip_whitespace(&mut self)
        requires
            old(self).wf(),
        ensures
            final(self).wf(),
            final(self).src@ == old(self).src@,
            final(self).pos == ws_end(old(self).src@, old(self).pos as int),
    {
        let ghost s = self.src@;
        let ghost p0 = self.pos as int;
        while self.pos < self.src.len() && is_whitespace(self.src[self.pos])
            invariant
                self.src@ == s,
                p0 <= self.pos <= s.len(),
                ws_end(s, p0) == ws_end(s, self.pos as int),
            decreases s.len() - self.pos,
        {
            self.pos = self.pos + 1;
        }
    }

    /// True when a valid escape begins at index `i`.
    fn valid_escape_at(&self, i: usize) -> (b: bool)
        ensures
            b == is_valid_escape_at(self.src@, i as int),
    {
        i < self.src.len() && self.src[i] == '\\' && (i + 1 == self.src.len() || !is_newline(
            self.src[i + 1],
        ))
    }

    /// True when an identifier would start at index `i`.
    fn ident_starts_at(&self, i: usize) -> (b: bool)
        ensures
            b == starts_ident_at(self.src@, i as int),
    {
        if i >= self.src.len() {
            false
        } else if self.src[i] == '-' {
            i + 1 < self.src.len() && (is_name_start(self.src[i + 1]) || self.src[i + 1] == '-'
                || self.valid_escape_at(i + 1))
        } else if is_name_start(self.src[i]) {
            true
        } else {
            self.valid_escape_at(i)
        }
    }

    /// True when a number would start at index `i`.
    fn number_starts_at(&self, i: usize) -> (b: bool)
        ensures
            b == starts_number_at(self.src@, i as int),
    {
        if i >= self.src.len() {
            false
        } else if self.src[i] == '+' || self.src[i] == '-' {
            (i + 1 < self.src.len() && is_digit(self.src[i + 1])) || (i + 1 < self.src.len()
                && self.src[i + 1] == '.' && i + 2 < self.src.len() && is_digit(self.src[i + 2]))
        } else if self.src[i] == '.' {
            i + 1 < self.src.len() && is_digit(self.src[i + 1])
        } else {
            is_digit(self.src[i])
        }
    }

    /// Consumes the escape at the cursor (which holds its backslash) and
    /// returns the character the escape denotes.
    fn consume_escaped(&mut self) -> (c: char)
        requires
            old(self).wf(),
            is_valid_escape_at(old(self).src@, old(self).pos as int),
        ensures
            final(self).wf(),
            final(self).src@ == old(self).src@,
            final(self).pos == escape_end(old(self).src@, old(self).pos as int),
            c == escape_char(old(self).src@, old(self).pos as int),
    {
        let ghost s = self.src@;
        let ghost p = self.pos as int;
        let n = self.src.len();
        self.pos = self.pos + 1;
        if self.pos == n {
            return '\u{fffd}';
        }
        let c0 = self.src[self.pos];
        if is_hex_digit(c0) {
            let ghost j = self.pos as int;
            let mut v: u32 = 0;
            let mut digits: usize = 0;
            while digits < 6 && self.pos < self.src.len() && is_hex_digit(self.src[self.pos])
                invariant
                    self.src@ == s,
                    j <= self.pos <= s.len(),
                    self.pos - j == digits,
                    digits <= 6,
                    hex_end(s, j, 6) == hex_end(s, self.pos as int, 6 - digits),
                    v == hex_value_capped(s, j, self.pos as int),
                    v <= 0x110000,
                decreases 6 - digits,
            {
                let d = hex_value(self.src[self.pos]);
                let nv = v * 16 + d;
                v = if nv > 0x110000 {
                    0x110000
                } else {
                    nv
                };
                self.pos = self.pos + 1;
                digits = digits + 1;
            }
            if self.pos < self.src.len() && is_whitespace(self.src[self.pos]) {
                if self.src[self.pos] == '\r' && self.pos + 1 < self.src.len() && self.src[self.pos
                    + 1] == '\n' {
                    self.pos = self.pos + 2;
                } else {
                    self.pos = self.pos + 1;
                }
            }
            if v == 0 || (0xd800 <= v && v < 0xe000) || v > 0x10ffff {
                '\u{fffd}'
            } else {
                let c = char::from_u32(v).unwrap();
                proof {
                    vstd::utf8::char_u32_cast(c, v);
                }
                c
            }
        } else {
            self.pos = self.pos + 1;
            c0
        }
    }

    /// Consumes the name at the cursor and returns its decoded text.
    fn consume_name(&mut self) -> (v: Vec<char>)
        requires
            old(self).wf(),
        ensures
            final(self).wf(),
            final(self).src@ == old(self).src@,
            final(self).pos == name_end(old(self).src@, old(self).pos as int),
            v@ == name_decoded(old(self).src@, old(self).pos as int),
    {
        let ghost s = self.src@;
        let ghost p0 = self.pos as int;
        let mut out: Vec<char> = Vec::new();
        while self.pos < self.src.len() && (is_name_char(self.src[self.pos]) || self.valid_escape_at(
            self.pos,
        ))
            invariant
                self.src@ == s,
                p0 <= self.pos <= s.len(),
                name_end(s, p0) == name_end(s, self.pos as int),
                name_decoded(s, p0) == out@ + name_decoded(s, self.pos as int),
            decreases s.len() - self.pos,
        {
            let ghost before = out@;
            let ghost pe = self.pos as int;
            if is_name_char(self.src[self.pos]) {
                out.push(self.src[self.pos]);
                self.pos = self.pos + 1;
                proof {
                    assert(out@ =~= before + seq![s[pe]]);
                    assert(before + (seq![s[pe]] + name_decoded(s, pe + 1)) =~= (before + seq![
                        s[pe],
                    ]) + name_decoded(s, pe + 1));
                }
            } else {
                let c = self.consume_escaped();
                out.push(c);
                proof {
                    lemma_escape_end_bounds(s, pe);
                    assert(out@ =~= before + seq![escape_char(s, pe)]);
                    assert(before + (seq![escape_char(s, pe)] + name_decoded(s, escape_end(s, pe)))
                        =~= (before + seq![escape_char(s, pe)]) + name_decoded(
                        s,
                        escape_end(s, pe),
                    ));
                }
            }
        }
        proof {
            assert(out@ + name_decoded(s, self.pos as int) =~= out@);
        }
        out
    }

    /// Consumes the comment at the cursor (which holds the `/` of `/*`) and
    /// returns its token, carrying the raw contents between the delimiters.
    /// An unterminated comment runs to the end of the input.
    #[verifier::loop_isolation(false)]
    fn consume_comment(&mut self) -> (t: Token)
        requires
            old(self).wf(),
            old(self).pos + 1 < old(self).src@.len(),
            old(self).src@[old(self).pos as int] == '/',
            old(self).src@[old(self).pos as int + 1] == '*',
        ensures
            final(self).wf(),
            final(self).src@ == old(self).src@,
            final(self).pos == comment_token_end(old(self).src@, old(self).pos as int),
            (t matches Token::Comment(v) && v@ == old(self).src@.subrange(
                old(self).pos + 2,
                comment_body_end(old(self).src@, old(self).pos as int + 2),
            )),
    {
        let ghost s = self.src@;
        let ghost p = self.pos as int;
        let n = self.src.len();
        self.pos = self.pos + 2;
        let mut out: Vec<char> = Vec::new();
        loop
            invariant
                self.src@ == s,
                n == s.len(),
                p + 2 <= self.pos <= s.len(),
                comment_body_end(s, p + 2) == comment_body_end(s, self.pos as int),
                out@ == s.subrange(p + 2, self.pos as int),
            decreases s.len() - self.pos,
        {
            if self.pos == n {
                return Token::Comment(out);
            }
            if self.pos + 1 < n && self.src[self.pos] == '*' && self.src[self.pos + 1] == '/' {
                self.pos = self.pos + 2;
                return Token::Comment(out);
            }
            let ghost before = out@;
            let ghost q = self.pos as int;
            out.push(self.src[self.pos]);
            self.pos = self.pos + 1;
            proof {
                assert(out@ =~= s.subrange(p + 2, q + 1));
            }
        }
    }

    /// Consumes the run of digits at the cursor and returns it verbatim.
    #[verifier::loop_isolation(false)]
    fn consume_digits(&mut self) -> (v: Vec<char>)
        requires
            old(self).wf(),
        ensures
            final(self).wf(),
            final(self).src@ == old(self).src@,
            final(self).pos == digits_end(old(self).src@, old(self).pos as int),
            v@ == old(self).src@.subrange(old(self).pos as int, final(self).pos as int),
    {
        let ghost s = self.src@;
        let ghost p0 = self.pos as int;
        let mut out: Vec<char> = Vec::new();
        proof {
            assert(out@ =~= s.subrange(p0, p0));
        }
        while self.pos < self.src.len() && is_digit(self.src[self.pos])
            invariant
                self.src@ == s,
                p0 <= self.pos <= s.len(),
                digits_end(s, p0) == digits_end(s, self.pos as int),
                out@ == s.subrange(p0, self.pos as int),
            decreases s.len() - self.pos,
        {
            let ghost q = self.pos as int;
            out.push(self.src[self.pos]);
            self.pos = self.pos + 1;
            proof {
                assert(out@ =~= s.subrange(p0, q + 1));
            }
        }
        out
    }

    /// Consumes the numeric literal at the cursor, keeping each written
    /// part exactly as it stands in the source.
    fn consume_number(&mut self) -> (nl: NumLit)
        requires
            old(self).wf(),
            starts_number_at(old(self).src@, old(self).pos as int),
        ensures
            final(self).wf(),
            final(self).src@ == old(self).src@,
            final(self).pos == number_end(old(self).src@, old(self).pos as int),
            num_lit_at(old(self).src@, old(self).pos as int, nl),
            nl.wf(),
    {
        let ghost s = self.src@;
        let ghost p = self.pos as int;
        let n = self.src.len();
        let sign: Option<char> = if self.src[self.pos] == '+' || self.src[self.pos] == '-' {
            let c = self.src[self.pos];
            self.pos = self.pos + 1;
            Some(c)
        } else {
            None
        };
        proof {
            assert(self.pos as int == num_sign_end(s, p));
        }
        let int_part = self.consume_digits();
        proof {
            assert(self.pos as int == num_int_end(s, p));
            lemma_digits_end_bounds(s, num_sign_end(s, p));
        }
        let mut frac_part: Vec<char> = Vec::new();
        if self.pos < n && self.pos + 1 < n && self.src[self.pos] == '.' && is_digit(self.src[self.pos + 1]) {
            proof {
                assert(num_has_frac(s, p));
            }
            self.pos = self.pos + 1;
            let ghost f0 = self.pos as int;
            frac_part = self.consume_digits();
            proof {
                lemma_digits_end_bounds(s, f0 + 1);
                assert(digits_end(s, f0) > f0);
            }
        } else {
            proof {
                assert(!num_has_frac(s, p));
            }
        }
        let mut exp_marker: Option<char> = None;
        let mut exp_sign: Option<char> = None;
        let mut exp_part: Vec<char> = Vec::new();
        if self.pos < n && (self.src[self.pos] == 'e' || self.src[self.pos] == 'E') {
            if self.pos + 1 < n && is_digit(self.src[self.pos + 1]) {
                proof {
                    assert(num_has_exp(s, p));
                }
                exp_marker = Some(self.src[self.pos]);
                self.pos = self.pos + 1;
                let ghost e0 = self.pos as int;
                exp_part = self.consume_digits();
                proof {
                    lemma_digits_end_bounds(s, e0 + 1);
                    assert(digits_end(s, e0) > e0);
                }
            } else if self.pos + 1 < n && (self.src[self.pos + 1] == '+' || self.src[self.pos + 1]
                == '-') && self.pos + 2 < n && is_digit(self.src[self.pos + 2]) {
                proof {
                    assert(num_has_exp(s, p));
                }
                exp_marker = Some(self.src[self.pos]);
                exp_sign = Some(self.src[self.pos + 1]);
                self.pos = self.pos + 2;
                let ghost e0 = self.pos as int;
                exp_part = self.consume_digits();
                proof {
                    lemma_digits_end_bounds(s, e0 + 1);
                    assert(digits_end(s, e0) > e0);
                }
            } else {
                proof {
                    assert(!num_has_exp(s, p));
                }
            }
        } else {
            proof {
                assert(!num_has_exp(s, p));
            }
        }
        proof {
            let s0 = num_sign_end(s, p);
            let d1 = num_int_end(s, p);
            assert forall|i: int| 0 <= i < int_part@.len() implies spec_is_digit(
                int_part@[i],
            ) by {
                assert(int_part@[i] == s[s0 + i]);
            }
            assert forall|i: int| 0 <= i < frac_part@.len() implies spec_is_digit(
                frac_part@[i],
            ) by {
                assert(frac_part@[i] == s[d1 + 1 + i]);
            }
            assert forall|i: int| 0 <= i < exp_part@.len() implies spec_is_digit(
                exp_part@[i],
            ) by {
                assert(exp_part@[i] == s[num_exp_digits_start(s, p) + i]);
            }
            assert(int_part@.len() + frac_part@.len() > 0) by {
                if s0 < s.len() && is_digit(s[s0]) {
                    lemma_digits_end_bounds(s, s0 + 1);
                    assert(digits_end(s, s0) >= s0 + 1);
                } else {
                    assert(num_has_frac(s, p));
                }
            }
        }
        NumLit { sign, int_part, frac_part, exp_marker, exp_sign, exp_part }
    }

    /// Consumes the quoted string whose opening quote stands at the cursor
    /// and returns its token: the decoded contents, as a bad-string token
    /// when a raw line break or the end of the input cuts the string short.
    #[verifier::loop_isolation(false)]
    fn consume_string(&mut self) -> (t: Token)
        requires
            old(self).wf(),
            old(self).pos < old(self).src@.len(),
            old(self).src@[old(self).pos as int] == '"' || old(self).src@[old(self).pos as int]
                == '\'',
        ensures
            final(self).wf(),
            final(self).src@ == old(self).src@,
            string_token_at(old(self).src@, old(self).pos as int, t, final(self).pos as int),
    {
        let ghost s = self.src@;
        let ghost p = self.pos as int;
        let n = self.src.len();
        let quote = self.src[self.pos];
        self.pos = self.pos + 1;
        let mut out: Vec<char> = Vec::new();
        loop
            invariant
                self.src@ == s,
                p + 1 <= self.pos <= s.len(),
                string_scan(s, p + 1, quote) == string_scan(s, self.pos as int, quote),
                string_decoded(s, p + 1, quote) == out@ + string_decoded(
                    s,
                    self.pos as int,
                    quote,
                ),
            decreases s.len() - self.pos,
        {
            if self.pos == n {
                proof {
                    assert(out@ + string_decoded(s, self.pos as int, quote) =~= out@);
                }
                return Token::BadString(out);
            }
            let c = self.src[self.pos];
            if c == quote {
                self.pos = self.pos + 1;
                proof {
                    assert(out@ + string_decoded(s, self.pos as int - 1, quote) =~= out@);
                }
                return Token::QuotedString(out);
            }
            if is_newline(c) {
                proof {
                    assert(out@ + string_decoded(s, self.pos as int, quote) =~= out@);
                }
                return Token::BadString(out);
            }
            if c == '\\' {
                if self.pos + 1 == n {
                    self.pos = self.pos + 1;
                    proof {
                        assert(out@ + string_decoded(s, self.pos as int - 1, quote) =~= out@);
                    }
                    return Token::BadString(out);
                } else if is_newline(self.src[self.pos + 1]) {
                    if self.src[self.pos + 1] == '\r' && self.pos + 2 < n && self.src[self.pos
                        + 2] == '\n' {
                        self.pos = self.pos + 3;
                    } else {
                        self.pos = self.pos + 2;
                    }
                } else {
                    let ghost q = self.pos as int;
                    let ghost before = out@;
                    let ch = self.consume_escaped();
                    out.push(ch);
                    proof {
                        lemma_escape_end_bounds(s, q);
                        assert(out@ =~= before + seq![escape_char(s, q)]);
                        assert((before + seq![escape_char(s, q)]) + string_decoded(
                            s,
                            escape_end(s, q),
                            quote,
                        ) =~= before + (seq![escape_char(s, q)] + string_decoded(
                            s,
                            escape_end(s, q),
                            quote,
                        )));
                    }
                }
            } else {
                let ghost q = self.pos as int;
                let ghost before = out@;
                out.push(c);
                self.pos = self.pos + 1;
                proof {
                    assert(out@ =~= before + seq![s[q]]);
                    assert((before + seq![s[q]]) + string_decoded(s, q + 1, quote) =~= before + (
                    seq![s[q]] + string_decoded(s, q + 1, quote)));
                }
            }
        }
    }

    /// Skips the remnants of a malformed url: to just past the closing
    /// `)`, or to (not past) a line break, or to the end of the input.
    #[verifier::loop_isolation(false)]
    fn consume_bad_url_rest(&mut self)
        requires
            old(self).wf(),
        ensures
            final(self).wf(),
            final(self).src@ == old(self).src@,
            final(self).pos == bad_url_end(old(self).src@, old(self).pos as int),
    {
        let ghost s = self.src@;
        let ghost p0 = self.pos as int;
        let n = self.src.len();
        loop
            invariant
                self.src@ == s,
                p0 <= self.pos <= s.len(),
                bad_url_end(s, p0) == bad_url_end(s, self.pos as int),
            decreases s.len() - self.pos,
        {
            if self.pos == n {
                return;
            }
            let c = self.src[self.pos];
            if c == ')' {
                self.pos = self.pos + 1;
                return;
            }
            if is_newline(c) {
                return;
            }
            self.pos = self.pos + 1;
        }
    }

    /// Consumes the body of an unquoted url, the cursor standing past
    /// `url(` and any leading whitespace, and returns its token: the
    /// decoded contents, as a bad-url token when the body is malformed.
    #[verifier::loop_isolation(false)]
    fn consume_url(&mut self) -> (t: Token)
        requires
            old(self).wf(),
        ensures
            final(self).wf(),
            final(self).src@ == old(self).src@,
            final(self).pos == url_scan(old(self).src@, old(self).pos as int).0,
            (if url_scan(old(self).src@, old(self).pos as int).1 {
                t matches Token::Url(v) && v@ == url_decoded(old(self).src@, old(self).pos as int)
            } else {
                t matches Token::BadUrl(v) && v@ == url_decoded(
                    old(self).src@,
                    old(self).pos as int,
                )
            }),
    {
        let ghost s = self.src@;
        let ghost p0 = self.pos as int;
        let n = self.src.len();
        let mut out: Vec<char> = Vec::new();
        loop
            invariant
                self.src@ == s,
                p0 <= self.pos <= s.len(),
                url_scan(s, p0) == url_scan(s, self.pos as int),
                url_decoded(s, p0) == out@ + url_decoded(s, self.pos as int),
            decreases s.len() - self.pos,
        {
            if self.pos == n {
                proof {
                    assert(out@ + url_decoded(s, self.pos as int) =~= out@);
                }
                return Token::Url(out);
            }
            let c = self.src[self.pos];
            if c == ')' {
                self.pos = self.pos + 1;
                proof {
                    assert(out@ + url_decoded(s, self.pos as int - 1) =~= out@);
                }
                return Token::Url(out);
            }
            if is_whitespace(c) {
                let ghost w0 = self.pos as int;
                self.skip_whitespace();
                proof {
                    assert(out@ + url_decoded(s, w0) =~= out@);
                }
                if self.pos == n {
                    return Token::Url(out);
                } else if self.src[self.pos] == ')' {
                    self.pos = self.pos + 1;
                    return Token::Url(out);
                } else {
                    self.consume_bad_url_rest();
                    return Token::BadUrl(out);
                }
            }
            if c == '"' || c == '\'' || c == '(' || is_non_printable(c) {
                proof {
                    assert(out@ + url_decoded(s, self.pos as int) =~= out@);
                }
                self.consume_bad_url_rest();
                return Token::BadUrl(out);
            }
            if c == '\\' {
                if self.valid_escape_at(self.pos) {
                    let ghost q = self.pos as int;
                    let ghost before = out@;
                    let ch = self.consume_escaped();
                    out.push(ch);
                    proof {
                        lemma_escape_end_bounds(s, q);
                        assert(out@ =~= before + seq![escape_char(s, q)]);
                        assert((before + seq![escape_char(s, q)]) + url_decoded(
                            s,
                            escape_end(s, q),
                        ) =~= before + (seq![escape_char(s, q)] + url_decoded(
                            s,
                            escape_end(s, q),
                        )));
                    }
                } else {
                    proof {
                        assert(out@ + url_decoded(s, self.pos as int) =~= out@);
                    }
                    self.consume_bad_url_rest();
                    return Token::BadUrl(out);
                }
            } else {
                let ghost q = self.pos as int;
                let ghost before = out@;
                out.push(c);
                self.pos = self.pos + 1;
                proof {
                    assert(out@ =~= before + seq![s[q]]);
                    assert((before + seq![s[q]]) + url_decoded(s, q + 1) =~= before + (seq![s[q]]
                        + url_decoded(s, q + 1)));
                }
            }
        }
    }

    /// Consumes the ident-like token at the cursor: an unquoted url token
    /// when the name is `url` followed by `(` and the contents are not
    /// quoted; otherwise a plain identifier.
    fn consume_ident_like(&mut self) -> (t: Token)
        requires
            old(self).wf(),
            old(self).pos < old(self).src@.len(),
            is_name_char(old(self).src@[old(self).pos as int]) || is_valid_escape_at(
                old(self).src@,
                old(self).pos as int,
            ),
        ensures
            final(self).wf(),
            final(self).src@ == old(self).src@,
            ident_token_at(old(self).src@, old(self).pos as int, t, final(self).pos as int),
            old(self).pos < final(self).pos,
    {
        let ghost s = self.src@;
        let ghost p = self.pos as int;
        proof {
            lemma_name_end_progress(s, p);
        }
        let name = self.consume_name();
        let n = self.src.len();
        let is_url = name.len() == 3 && (name[0] == 'u' || name[0] == 'U') && (name[1] == 'r'
            || name[1] == 'R') && (name[2] == 'l' || name[2] == 'L');
        if is_url && self.pos < n && self.src[self.pos] == '(' {
            let open = self.pos;
            let ghost ne = self.pos as int;
            self.pos = self.pos + 1;
            self.skip_whitespace();
            let quoted = self.pos < n && (self.src[self.pos] == '"' || self.src[self.pos]
                == '\'');
            if quoted {
                self.pos = open;
                proof {
                    assert(!is_unquoted_url_at(s, p));
                }
                return Token::Ident(name);
            } else {
                proof {
                    assert(is_unquoted_url_at(s, p));
                    lemma_ws_end_bounds(s, ne + 1);
                    lemma_url_scan_bounds(s, ws_end(s, ne + 1));
                }
                return self.consume_url();
            }
        }
        Token::Ident(name)
    }

    /// Consumes a numeric token: the literal and, with it, the unit name
    /// of a dimension or the percent sign of a percentage when one
    /// follows.
    fn consume_numeric(&mut self) -> (t: Token)
        requires
            old(self).wf(),
            starts_number_at(old(self).src@, old(self).pos as int),
        ensures
            final(self).wf(),
            final(self).src@ == old(self).src@,
            numeric_token_at(old(self).src@, old(self).pos as int, t, final(self).pos as int),
            old(self).pos < final(self).pos,
    {
        let ghost s = self.src@;
        let ghost p = self.pos as int;
        proof {
            lemma_number_end_bounds(s, p);
        }
        let nl = self.consume_number();
        let n = self.src.len();
        if self.ident_starts_at(self.pos) {
            proof {
                lemma_name_end_bounds(s, self.pos as int);
            }
            let unit = self.consume_name();
            Token::Dimension(nl, unit)
        } else if self.pos < n && self.src[self.pos] == '%' {
            self.pos = self.pos + 1;
            Token::Percentage(nl)
        } else {
            Token::Number(nl)
        }
    }

    /// Advances the cursor past exactly one token and returns it.
    ///
    /// At the end of the input it returns `Eof`, moves nothing, and does
    /// the same on every later call; on any other input it consumes at
    /// least one character, so the tokens of any source are finitely many.
    /// The returned token is exactly the one the grammar
    /// [`crate::scan::token_at`] assigns to the old cursor position, and
    /// the cursor advances to the end of its span.
    pub fn next(&mut self) -> (t: Token)
        requires
            old(self).wf(),
        ensures
            final(self).wf(),
            final(self).src@ == old(self).src@,
            token_at(old(self).src@, old(self).pos as int, t, final(self).pos as int),
            old(self).pos <= final(self).pos,
            (t == Token::Eof <==> old(self).pos == old(self).src@.len()),
            old(self).pos == old(self).src@.len() ==> final(self).pos == old(self).pos,
            old(self).pos < old(self).src@.len() ==> old(self).pos < final(self).pos,
    {
        proof {
            reveal(token_at);
        }
        let ghost s = self.src@;
        let ghost p = self.pos as int;
        let n = self.src.len();
        if self.pos == n {
            return Token::Eof;
        }
        let c = self.src[self.pos];
        if is_whitespace(c) {
            proof {
                lemma_ws_end_bounds(s, p + 1);
            }
            self.skip_whitespace();
            return Token::Whitespace;
        }
        if c == '/' && self.pos + 1 < n && self.src[self.pos + 1] == '*' {
            proof {
                lemma_comment_body_end_bounds(s, p + 2);
            }
            return self.consume_comment();
        }
        if c == '"' || c == '\'' {
            proof {
                lemma_string_scan_bounds(s, p + 1, c);
            }
            return self.consume_string();
        }
        if c == '#' {
            if self.pos + 1 < n && (is_name_char(self.src[self.pos + 1]) || self.valid_escape_at(
                self.pos + 1,
            )) {
                let flag = self.ident_starts_at(self.pos + 1);
                self.pos = self.pos + 1;
                proof {
                    lemma_name_end_progress(s, p + 1);
                }
                let name = self.consume_name();
                return Token::Hash(name, flag);
            }
            self.pos = self.pos + 1;
            return Token::Delim('#');
        }
        if c == '+' {
            if self.number_starts_at(self.pos) {
                return self.consume_numeric();
            }
            self.pos = self.pos + 1;
            return Token::Delim('+');
        }
        if c == '-' {
            if self.number_starts_at(self.pos) {
                return self.consume_numeric();
            }
            if self.pos + 1 < n && self.src[self.pos + 1] == '-' && self.pos + 2 < n
                && self.src[self.pos + 2] == '>' {
                self.pos = self.pos + 3;
                return Token::Cdc;
            }
            if self.ident_starts_at(self.pos) {
                return self.consume_ident_like();
            }
            self.pos = self.pos + 1;
            return Token::Delim('-');
        }
        if c == '.' {
            if self.number_starts_at(self.pos) {
                return self.consume_numeric();
            }
            self.pos = self.pos + 1;
            return Token::Delim('.');
        }
        if c == '<' {
            if self.pos + 1 < n && self.src[self.pos + 1] == '!' && self.pos + 2 < n
                && self.src[self.pos + 2] == '-' && self.pos + 3 < n && self.src[self.pos + 3]
                == '-' {
                self.pos = self.pos + 4;
                return Token::Cdo;
            }
            self.pos = self.pos + 1;
            return Token::Delim('<');
        }
        if c == '@' {
            if self.ident_starts_at(self.pos + 1) {
                self.pos = self.pos + 1;
                proof {
                    lemma_name_end_progress(s, p + 1);
                }
                let name = self.consume_name();
                return Token::AtKeyword(name);
            }
            self.pos = self.pos + 1;
            return Token::Delim('@');
        }
        if c == '\\' {
            if self.valid_escape_at(self.pos) {
                return self.consume_ident_like();
            }
            self.pos = self.pos + 1;
            return Token::Delim('\\');
        }
        if is_digit(c) {
            return self.consume_numeric();
        }
        if is_name_start(c) {
            return self.consume_ident_like();
        }
        self.pos = self.pos + 1;
        if c == ':' {
            Token::Colon
        } else if c == ';' {
            Token::Semicolon
        } else if c == ',' {
            Token::Comma
        } else if c == '(' {
            Token::ParenOpen
        } else if c == ')' {
            Token::ParenClose
        } else if c == '[' {
            Token::SquareOpen
        } else if c == ']' {
            Token::SquareClose
        } else if c == '{' {
            Token::CurlyOpen
        } else if c == '}' {
            Token::CurlyClose
        } else {
            Token::Delim(c)
        }
    }

    /// The number of the line the cursor stands on, counted from zero:
    /// the number of line breaks before the cursor, a `\r\n` pair
    /// counting as one break.
    pub fn get_line_number(&self) -> (ln: usize)
        requires
            self.wf(),
        ensures
            ln == line_breaks_before(self.src@, self.pos as int),
    {
        let ghost s = self.src@;
        let mut i: usize = 0;
        let mut ln: usize = 0;
        while i < self.pos
            invariant
                self.wf(),
                i <= self.pos,
                s == self.src@,
                ln <= i,
                ln == line_breaks_before(s, i as int),
            decreases self.pos - i,
        {
            let c = self.src[i];
            if c == '\n' || c == '\u{c}' || (c == '\r' && !(i + 1 < self.src.len()
                && self.src[i + 1] == '\n')) {
                ln = ln + 1;
            }
            i = i + 1;
        }
        ln
    }

    /// The column the cursor stands in, counted from zero: the number of
    /// characters between the start of the current line and the cursor.
    pub fn get_column_number(&self) -> (col: usize)
        requires
            self.wf(),
        ensures
            col == self.pos - line_start_before(self.src@, self.pos as int),
    {
        let ghost s = self.src@;
        let mut i: usize = 0;
        let mut ls: usize = 0;
        while i < self.pos
            invariant
                self.wf(),
                i <= self.pos,
                s == self.src@,
                ls <= i,
                ls == line_start_before(s, i as int),
            decreases self.pos - i,
        {
            let c = self.src[i];
            i = i + 1;
            if c == '\n' || c == '\u{c}' || (c == '\r' && !(i < self.src.len() && self.src[i]
                == '\n')) {
                ls = i;
            }
        }
        self.pos - ls
    }
}

/// One token together with the source span it was consumed from.
pub struct Spanned {
    /// The token.
    pub token: Token,
    /// Index of the first character of the span.
    pub start: usize,
    /// Index just past the last character of the span.
    pub end: usize,
}

/// Tokenizes a whole source: every token in order, each with the span it
/// was consumed from, ending with the `Eof` token, whose span is empty.
/// The spans are contiguous, begin at the start of the source, and end at
/// its end: together they cover the source exactly, as
/// [`lemma_tokens_lossless`] states.
#[verifier::rlimit(60)]
#[verifier::loop_isolation(false)]
pub fn tokenize(src: Vec<char>) -> (r: Vec<Spanned>)
    ensures
        r@.len() >= 1,
        r@.last().token == Token::Eof,
        r@.last().end == src@.len(),
        r@[0].start == 0,
        forall|i: int|
            0 <= i < r@.len() ==> (#[trigger] r@[i]).start <= r@[i].end <= src@.len(),
        forall|i: int|
            0 <= i < r@.len() ==> token_at(
                src@,
                (#[trigger] r@[i]).start as int,
                r@[i].token,
                r@[i].end as int,
            ),
        forall|i: int| 0 <= i < r@.len() - 1 ==> (#[trigger] r@[i]).end == r@[i + 1].start,
        forall|i: int| 0 <= i < r@.len() - 1 ==> !((#[trigger] r@[i]).token == Token::Eof),
{
    let ghost s = src@;
    let mut tk = Tokenizer::new(src);
    let mut out: Vec<Spanned> = Vec::new();
    loop
        invariant
            tk.wf(),
            tk.src@ == s,
            out@.len() == 0 ==> tk.pos == 0,
            out@.len() > 0 ==> out@[0].start == 0,
            out@.len() > 0 ==> out@.last().end == tk.pos,
            forall|i: int|
                0 <= i < out@.len() ==> (#[trigger] out@[i]).start <= out@[i].end <= s.len(),
            forall|i: int|
                0 <= i < out@.len() ==> token_at(
                    s,
                    (#[trigger] out@[i]).start as int,
                    out@[i].token,
                    out@[i].end as int,
                ),
            forall|i: int|
                0 <= i < out@.len() - 1 ==> (#[trigger] out@[i]).end == out@[i + 1].start,
            forall|i: int| 0 <= i < out@.len() ==> !((#[trigger] out@[i]).token == Token::Eof),
        decreases s.len() - tk.pos,
    {
        let start = tk.pos;
        let t = tk.next();
        let is_eof = match &t {
            Token::Eof => true,
            _ => false,
        };
        let end = tk.pos;
        out.push(Spanned { token: t, start, end });
        if is_eof {
            proof {
                assert(s == src@);
                assert(out@.last().token is Eof);
                assert(out@.last().token == Token::Eof);
                assert(out@.last().end == s.len());
                assert(out@.last().end == src@.len());
                assert forall|i: int|
                    0 <= i < out@.len() implies (#[trigger] out@[i]).start <= out@[i].end
                    <= src@.len() by {}
            }
            return out;
        }
    }
}

/// The concatenation of the source spans of a list of spanned tokens, in
/// order.
pub open spec fn spans_concat(s: Seq<char>, spans: Seq<Spanned>) -> Seq<char>
    decreases spans.len(),
{
    if spans.len() == 0 {
        Seq::empty()
    } else {
        spans_concat(s, spans.drop_last()) + s.subrange(
            spans.last().start as int,
            spans.last().end as int,
        )
    }
}

/// Lossless coverage: when spans are contiguous, begin at the start of
/// the source, and stay within it, concatenating them reconstructs the
/// source up to the end of the last span.
pub proof fn lemma_spans_cover(s: Seq<char>, spans: Seq<Spanned>)
    requires
        spans.len() > 0,
        spans[0].start == 0,
        forall|i: int|
            0 <= i < spans.len() ==> (#[trigger] spans[i]).start <= spans[i].end <= s.len(),
        forall|i: int|
            0 <= i < spans.len() - 1 ==> (#[trigger] spans[i]).end == spans[i + 1].start,
    ensures
        spans_concat(s, spans) == s.subrange(0, spans.last().end as int),
    decreases spans.len(),
{
    if spans.len() == 1 {
        assert(spans.last() == spans[0]);
        assert(spans.drop_last().len() == 0);
        assert(spans_concat(s, spans.drop_last()) == Seq::<char>::empty());
        assert(Seq::<char>::empty() + s.subrange(0, spans.last().end as int) =~= s.subrange(
            0,
            spans.last().end as int,
        ));
    } else {
        let dl = spans.drop_last();
        assert(dl[0] == spans[0]);
        assert forall|i: int|
            0 <= i < dl.len() implies (#[trigger] dl[i]).start <= dl[i].end <= s.len() by {
            assert(dl[i] == spans[i]);
        }
        assert forall|i: int| 0 <= i < dl.len() - 1 implies (#[trigger] dl[i]).end == dl[i
            + 1].start by {
            assert(dl[i] == spans[i]);
            assert(dl[i + 1] == spans[i + 1]);
        }
        lemma_spans_cover(s, dl);
        assert(dl.last() == spans[spans.len() - 2]);
        assert(spans[spans.len() - 2].end == spans.last().start);
        let a = spans.last().start as int;
        let b = spans.last().end as int;
        assert(spans_concat(s, dl) == s.subrange(0, a));
        assert(s.subrange(0, a) + s.subrange(a, b) =~= s.subrange(0, b));
    }
}

/// Concatenating the source spans consumed for the tokens of a whole
/// source - as `tokenize` returns them, the `Eof` token's empty span
/// included - yields the source itself: tokenization loses nothing.
pub proof fn lemma_tokens_lossless(s: Seq<char>, spans: Seq<Spanned>)
    requires
        spans.len() > 0,
        spans[0].start == 0,
        spans.last().end == s.len(),
        forall|i: int|
            0 <= i < spans.len() ==> (#[trigger] spans[i]).start <= spans[i].end <= s.len(),
        forall|i: int|
            0 <= i < spans.len() - 1 ==> (#[trigger] spans[i]).end == spans[i + 1].start,
    ensures
        spans_concat(s, spans) == s,
{
    lemma_spans_cover(s, spans);
    assert(s.subrange(0, s.len() as int) =~= s);
}

} // verus!
