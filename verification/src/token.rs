//! The token type and the shape of numeric literals.

use vstd::prelude::*;

verus! {

/// A numeric literal, kept exactly as written: an optional sign, integer
/// digits, optional fraction digits, and an optional exponent part. The
/// mathematical value is `sign * int.frac * 10^(exp_sign exp)`.
///
/// Well-formed values satisfy [`NumLit::wf`]: every part holds only digits,
/// at least one digit is present, and the exponent marker is present exactly
/// when exponent digits are.
#[derive(Debug, PartialEq, Eq)]
pub struct NumLit {
    /// The written sign, `'+'` or `'-'`, if any.
    pub sign: Option<char>,
    /// Digits before the decimal point; may be empty (as in `.5`).
    pub int_part: Vec<char>,
    /// Digits after the decimal point; empty when no point was written.
    pub frac_part: Vec<char>,
    /// The written exponent marker, `'e'` or `'E'`; present exactly when
    /// `exp_part` is non-empty.
    pub exp_marker: Option<char>,
    /// The written exponent sign, if any.
    pub exp_sign: Option<char>,
    /// Digits of the exponent; empty when no exponent was written.
    pub exp_part: Vec<char>,
}

impl NumLit {
    /// Structural well-formedness of a numeric literal.
    pub open spec fn wf(self) -> bool {
        &&& (self.sign matches Some(c) ==> c == '+' || c == '-')
        &&& (forall|i: int|
            0 <= i < self.int_part@.len() ==> crate::chars::spec_is_digit(self.int_part@[i]))
        &&& (forall|i: int|
            0 <= i < self.frac_part@.len() ==> crate::chars::spec_is_digit(self.frac_part@[i]))
        &&& (forall|i: int|
            0 <= i < self.exp_part@.len() ==> crate::chars::spec_is_digit(self.exp_part@[i]))
        &&& self.int_part@.len() + self.frac_part@.len() > 0
        &&& (self.exp_marker matches Some(c) ==> c == 'e' || c == 'E')
        &&& (self.exp_marker is Some <==> self.exp_part@.len() > 0)
        &&& (self.exp_sign matches Some(c) ==> c == '+' || c == '-')
        &&& (self.exp_sign is Some ==> self.exp_part@.len() > 0)
    }

    /// An integer literal is one written with neither a decimal point nor an
    /// exponent.
    pub open spec fn spec_is_integer(&self) -> bool {
        self.frac_part@.len() == 0 && self.exp_part@.len() == 0
    }

    #[verifier::when_used_as_spec(spec_is_integer)]
    pub fn is_integer(&self) -> (b: bool)
        ensures
            b == self.spec_is_integer(),
    {
        self.frac_part.len() == 0 && self.exp_part.len() == 0
    }

    /// The value of an integer literal, when it is one and it fits: the
    /// signed value of the integer digits of a literal written with
    /// neither fraction nor exponent digits. `None` for a non-integer
    /// literal and for one whose value does not fit an `i64`.
    pub fn integer_value(&self) -> (r: Option<i64>)
        requires
            self.wf(),
        ensures
            (r is Some <==> (self.spec_is_integer() && -0x8000_0000_0000_0000
                <= num_lit_integer_value(*self) <= 0x7fff_ffff_ffff_ffff)),
            (r matches Some(v) ==> v == num_lit_integer_value(*self)),
    {
        if !self.is_integer() {
            return None;
        }
        let ghost ds = self.int_part@;
        let mut acc: u128 = 0;
        let mut i: usize = 0;
        proof {
            assert(ds.take(0) =~= Seq::<char>::empty());
        }
        while i < self.int_part.len()
            invariant
                self.wf(),
                i <= self.int_part@.len(),
                ds == self.int_part@,
                acc == digits_value_capped(ds.take(i as int)),
                acc <= 0x8000_0000_0000_0001,
            decreases self.int_part@.len() - i,
        {
            let c = self.int_part[i];
            let d = (c as u32 - 48) as u128;
            let nv = acc * 10 + d;
            acc = if nv > 0x8000_0000_0000_0001 {
                0x8000_0000_0000_0001
            } else {
                nv
            };
            i = i + 1;
            proof {
                assert(ds.take(i as int).drop_last() =~= ds.take(i as int - 1));
                assert(ds.take(i as int).last() == c);
            }
        }
        proof {
            assert(ds.take(i as int) =~= ds);
            lemma_digits_value_capped(ds);
        }
        let neg = match self.sign {
            Some('-') => true,
            _ => false,
        };
        if neg {
            if acc < 0x8000_0000_0000_0000 {
                Some(-(acc as i64))
            } else if acc == 0x8000_0000_0000_0000 {
                Some(i64::MIN)
            } else {
                None
            }
        } else {
            if acc <= 0x7fff_ffff_ffff_ffff {
                Some(acc as i64)
            } else {
                None
            }
        }
    }
}

/// The value of a sequence of decimal digit characters, read left to right.
pub open spec fn digits_value(s: Seq<char>) -> int
    decreases s.len(),
{
    if s.len() == 0 {
        0
    } else {
        digits_value(s.drop_last()) * 10 + (s.last() as u32 - 48)
    }
}

/// The mathematical value of an integer literal (one with neither fraction
/// nor exponent digits).
pub open spec fn num_lit_integer_value(n: NumLit) -> int {
    if n.sign == Some('-') {
        -digits_value(n.int_part@)
    } else {
        digits_value(n.int_part@)
    }
}

/// [`digits_value`], saturated just above `i64::MAX + 1`; the saturation
/// point is high enough to decide whether the signed value fits an `i64`
/// with either sign.
pub open spec fn digits_value_capped(s: Seq<char>) -> int
    decreases s.len(),
{
    if s.len() == 0 {
        0
    } else {
        let v = digits_value_capped(s.drop_last()) * 10 + (s.last() as u32 - 48);
        if v > 0x8000_0000_0000_0001 {
            0x8000_0000_0000_0001
        } else {
            v
        }
    }
}

pub proof fn lemma_digits_value_capped(s: Seq<char>)
    requires
        forall|i: int| 0 <= i < s.len() ==> crate::chars::spec_is_digit(#[trigger] s[i]),
    ensures
        digits_value(s) >= 0,
        digits_value_capped(s) == (if digits_value(s) > 0x8000_0000_0000_0001 {
            0x8000_0000_0000_0001int
        } else {
            digits_value(s)
        }),
    decreases s.len(),
{
    if s.len() > 0 {
        let dl = s.drop_last();
        assert forall|i: int| 0 <= i < dl.len() implies crate::chars::spec_is_digit(
            #[trigger] dl[i],
        ) by {
            assert(dl[i] == s[i]);
        }
        lemma_digits_value_capped(dl);
    }
}

/// One CSS token. Textual payloads are kept as sequences of Unicode scalar
/// values with all escapes already decoded.
#[derive(Debug, PartialEq, Eq)]
pub enum Token {
    /// An identifier; carries the decoded text.
    Ident(Vec<char>),
    /// `@` followed by a name; carries the decoded text without the `@`.
    AtKeyword(Vec<char>),
    /// `#` followed by a name; carries the decoded text without the `#` and
    /// a flag that is true when the name would also be a valid identifier.
    Hash(Vec<char>, bool),
    /// A well-terminated quoted string; carries the decoded contents.
    QuotedString(Vec<char>),
    /// A string cut short by a raw line break or the end of input; carries
    /// the contents decoded so far.
    BadString(Vec<char>),
    /// An unquoted `url(...)`; carries the decoded contents.
    Url(Vec<char>),
    /// A malformed `url(...)`; carries the contents decoded before the
    /// offending character.
    BadUrl(Vec<char>),
    /// A numeric literal.
    Number(NumLit),
    /// A numeric literal followed by `%`.
    Percentage(NumLit),
    /// A numeric literal followed by a unit name; carries the literal and
    /// the decoded unit.
    Dimension(NumLit, Vec<char>),
    /// A single character that starts no other token.
    Delim(char),
    /// A maximal run of whitespace.
    Whitespace,
    /// `/* ... */`; carries the raw contents between the delimiters.
    Comment(Vec<char>),
    /// `:`
    Colon,
    /// `;`
    Semicolon,
    /// `,`
    Comma,
    /// `(`
    ParenOpen,
    /// `)`
    ParenClose,
    /// `[`
    SquareOpen,
    /// `]`
    SquareClose,
    /// `{`
    CurlyOpen,
    /// `}`
    CurlyClose,
    /// `<!--`
    Cdo,
    /// `-->`
    Cdc,
    /// End of input; returned forever once reached.
    Eof,
}

} // verus!
