//! Numbers, kept exactly as the decimal literal that was read.
//!
//! No rounding happens in this crate: a number is the text of its literal, and
//! whoever needs a binary floating-point value converts that text.

use vstd::prelude::*;
use crate::text::{chars_of, digit, is_digit};

verus! {

/// The part of a literal after its optional leading minus sign.
pub open spec fn unsigned_part(text: Seq<char>) -> Seq<char> {
    if text.len() > 0 && text[0] == '-' {
        text.skip(1)
    } else {
        text
    }
}

/// A decimal literal: an optional minus sign, then digits with at most one
/// point among them, at least one of them a digit.
pub open spec fn is_decimal_literal(text: Seq<char>) -> bool {
    let body = unsigned_part(text);
    &&& forall|i: int| 0 <= i < body.len() ==> is_digit(#[trigger] body[i]) || body[i] == '.'
    &&& forall|i: int, j: int|
        0 <= i < body.len() && 0 <= j < body.len() && #[trigger] body[i] == '.'
            && #[trigger] body[j] == '.' ==> i == j
    &&& exists|i: int| 0 <= i < body.len() && is_digit(#[trigger] body[i])
}

/// A number of the document, held as its decimal literal. Two numbers are
/// equal when their literals are.
#[derive(Debug, Eq)]
pub struct Number {
    literal: String,
}

impl View for Number {
    type V = Seq<char>;

    closed spec fn view(&self) -> Seq<char> {
        self.literal@
    }
}

impl PartialEq for Number {
    fn eq(&self, other: &Self) -> (r: bool) {
        self.literal == other.literal
    }
}

impl vstd::std_specs::cmp::PartialEqSpecImpl for Number {
    open spec fn obeys_eq_spec() -> bool {
        true
    }

    open spec fn eq_spec(&self, other: &Self) -> bool {
        self@ == other@
    }
}

impl Clone for Number {
    fn clone(&self) -> (r: Self)
        ensures
            r@ == self@,
    {
        proof {
            use_type_invariant(self);
        }
        Number { literal: self.literal.clone() }
    }
}

impl Number {
    #[verifier::type_invariant]
    spec fn well_formed(&self) -> bool {
        is_decimal_literal(self.literal@)
    }

    /// The number that `text` spells, if `text` is a decimal literal.
    pub fn new(text: &str) -> (r: Option<Number>)
        ensures
            is_decimal_literal(text@) <==> r is Some,
            r matches Some(n) ==> n@ == text@,
    {
        let chars = chars_of(text);
        if decimal_literal(&chars) {
            Some(Number { literal: String::from_str(text) })
        } else {
            None
        }
    }

    /// The number that `text` spells; where `text` is no decimal literal, it
    /// is handed back.
    pub fn from_string(text: String) -> (r: Result<Number, String>)
        ensures
            is_decimal_literal(text@) <==> r is Ok,
            r matches Ok(n) ==> n@ == text@,
            r matches Err(t) ==> t@ == text@,
    {
        let chars = chars_of(text.as_str());
        if decimal_literal(&chars) {
            Ok(Number { literal: text })
        } else {
            Err(text)
        }
    }

    /// The literal as it was read.
    pub fn as_str(&self) -> (r: &str)
        ensures
            r@ == self@,
            is_decimal_literal(r@),
    {
        proof {
            use_type_invariant(self);
        }
        self.literal.as_str()
    }

    /// Whether the literal starts with a minus sign.
    pub fn is_negative(&self) -> (r: bool)
        ensures
            r == (self@.len() > 0 && self@[0] == '-'),
    {
        let s = self.literal.as_str();
        s.unicode_len() > 0 && s.get_char(0) == '-'
    }
}

/// Whether `chars` spell a decimal literal.
pub fn decimal_literal(chars: &Vec<char>) -> (r: bool)
    ensures
        r == is_decimal_literal(chars@),
{
    let start: usize = if chars.len() > 0 && chars[0] == '-' { 1 } else { 0 };
    let ghost body = unsigned_part(chars@);
    let mut seen_point = false;
    let mut seen_digit = false;
    let ghost mut point_at: int = 0;
    let ghost mut digit_at: int = 0;
    let mut i: usize = start;
    while i < chars.len()
        invariant
            start <= i <= chars.len(),
            body == unsigned_part(chars@),
            body.len() == chars.len() - start,
            forall|k: int| 0 <= k < body.len() ==> body[k] == chars[k + start],
            forall|k: int| 0 <= k < i - start ==> is_digit(#[trigger] body[k]) || body[k] == '.',
            seen_point ==> 0 <= point_at < i - start && body[point_at] == '.',
            !seen_point ==> forall|k: int| 0 <= k < i - start ==> #[trigger] body[k] != '.',
            forall|k: int| 0 <= k < i - start && #[trigger] body[k] == '.' ==> k == point_at,
            seen_digit ==> 0 <= digit_at < i - start && is_digit(body[digit_at]),
            !seen_digit ==> forall|k: int| 0 <= k < i - start ==> !is_digit(#[trigger] body[k]),
        decreases chars.len() - i,
    {
        let c = chars[i];
        assert(body[i - start] == c);
        if digit(c) {
            proof {
                digit_at = i - start;
            }
            seen_digit = true;
        } else if c == '.' {
            if seen_point {
                assert(body[point_at] == '.' && body[i - start] == '.');
                return false;
            }
            proof {
                point_at = i - start;
            }
            seen_point = true;
        } else {
            assert(!is_digit(body[i - start]));
            return false;
        }
        i += 1;
    }
    seen_digit
}

} // verus!
