//! Numeric literals: the text of a number, as it stands in a file, checked by `fast_float`.
use vstd::prelude::*;

use crate::text::{is_digit, string_of};

verus! {

/// Whether `fast_float` reads the whole of `s` as a decimal floating-point number.
pub uninterp spec fn float_accepted(s: Seq<char>) -> bool;

/// Relies on `fast_float::parse`: it succeeds exactly when the whole string is a decimal
/// number that it reads (the syntax is the same for `f32` and `f64`).
#[verifier::external_body]
fn fast_float_accepts(s: &str) -> (r: bool)
    ensures
        r == float_accepted(s@),
{
    // The conversion to a `Duration` only fixes the type that is parsed into; its own
    // outcome is dropped.
    fast_float::parse(s).map(core::time::Duration::try_from_secs_f64).is_ok()
}

/// The characters that a numeric literal may hold: digits, letters (exponents, `inf`, `nan`),
/// the decimal point and signs. None of them separates fields in any of the formats.
pub open spec fn literal_char(c: char) -> bool {
    is_digit(c) || ('a' <= c && c <= 'z') || ('A' <= c && c <= 'Z') || c == '.' || c == '+'
        || c == '-'
}

pub open spec fn literal_shape(s: Seq<char>) -> bool {
    s.len() > 0 && forall|i: int| 0 <= i < s.len() ==> literal_char(#[trigger] s[i])
}

/// A numeric literal: made of literal characters, and read by `fast_float`.
pub open spec fn valid_literal(s: Seq<char>) -> bool {
    literal_shape(s) && float_accepted(s)
}

fn is_literal_char(c: char) -> (r: bool)
    ensures
        r == literal_char(c),
{
    ('0' <= c && c <= '9') || ('a' <= c && c <= 'z') || ('A' <= c && c <= 'Z') || c == '.' || c
        == '+' || c == '-'
}

/// A number kept as the literal text that it was read from.
#[derive(Clone, Debug, PartialEq, Eq)]
pub struct NumLit {
    text: String,
}

impl View for NumLit {
    type V = Seq<char>;

    closed spec fn view(&self) -> Seq<char> {
        self.text@
    }
}

impl NumLit {
    /// The literal `s`, if it is a valid numeric literal.
    pub fn from_chars(s: &[char]) -> (r: Option<NumLit>)
        ensures
            r is Some <==> valid_literal(s@),
            r matches Some(n) ==> n@ == s@,
    {
        if s.len() == 0 {
            return None;
        }
        let mut i: usize = 0;
        while i < s.len()
            invariant
                i <= s@.len(),
                forall|j: int| 0 <= j < i ==> literal_char(#[trigger] s@[j]),
            decreases s@.len() - i,
        {
            if !is_literal_char(s[i]) {
                return None;
            }
            i = i + 1;
        }
        let text = string_of(s);
        if fast_float_accepts(text.as_str()) {
            Some(NumLit { text })
        } else {
            None
        }
    }

    /// The literal `s`, if it is a valid numeric literal.
    pub fn parse(s: &str) -> (r: Option<NumLit>)
        ensures
            r is Some <==> valid_literal(s@),
            r matches Some(n) ==> n@ == s@,
    {
        let cs = crate::text::chars_of(s);
        NumLit::from_chars(cs.as_slice())
    }

    /// The literal's text.
    pub fn as_str(&self) -> (r: &str)
        ensures
            r@ == self@,
    {
        self.text.as_str()
    }

    /// A copy of the literal.
    pub fn copied(&self) -> (r: NumLit)
        ensures
            r@ == self@,
    {
        NumLit { text: self.text.clone() }
    }
}

} // verus!
