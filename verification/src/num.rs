//! Numbers of the illustration language.
//!
//! A number literal of the language is held exactly as a count of
//! thousandths, so that equal literals compare equal and print back the way
//! they were written (`20`, `12.5`, `-0.25`).

use vstd::prelude::*;
use crate::strings::{decimal, digit_char, digit_to_char, push_char, push_decimal};

verus! {

/// A decimal number with three fractional digits, held as thousandths.
#[derive(Debug, Clone, Copy, PartialEq, Eq, Structural)]
pub struct Num {
    pub milli: i64,
}

/// Magnitude of a thousandths count.
pub open spec fn magnitude(m: int) -> nat {
    if m < 0 { (-m) as nat } else { m as nat }
}

/// Fractional digits of `f` thousandths (`0 < f < 1000`), trailing zeros dropped.
pub open spec fn frac_digits(f: nat) -> Seq<char> {
    let d1 = f / 100;
    let d2 = (f / 10) % 10;
    let d3 = f % 10;
    if d3 != 0 {
        seq![digit_char(d1), digit_char(d2), digit_char(d3)]
    } else if d2 != 0 {
        seq![digit_char(d1), digit_char(d2)]
    } else {
        seq![digit_char(d1)]
    }
}

/// The unsigned spelling of a number of thousandths: integer part, then a
/// point and the fractional digits when there are any.
pub open spec fn magnitude_text(m: int) -> Seq<char> {
    let a = magnitude(m);
    if a % 1000 == 0 {
        decimal(a / 1000)
    } else {
        decimal(a / 1000) + seq!['.'] + frac_digits(a % 1000)
    }
}

/// How a number prints: a minus sign for negatives, then its magnitude
/// (the shortest decimal spelling, as for std's float `Display`).
pub open spec fn num_text(n: Num) -> Seq<char> {
    if n.milli < 0 {
        seq!['-'] + magnitude_text(n.milli as int)
    } else {
        magnitude_text(n.milli as int)
    }
}

impl Num {
    /// A number from its count of thousandths.
    pub fn from_milli(milli: i64) -> (r: Num)
        ensures
            r.milli == milli,
    {
        Num { milli }
    }

    /// A whole number.
    pub fn from_int(n: i32) -> (r: Num)
        ensures
            r.milli == n * 1000,
    {
        Num { milli: (n as i64) * 1000 }
    }

    /// Whether the number is zero or more.
    pub fn is_nonneg(&self) -> (r: bool)
        ensures
            r == (self.milli >= 0),
    {
        self.milli >= 0
    }

    /// Appends the spelling of the number's magnitude to `s`.
    pub fn push_magnitude(&self, s: &mut String)
        ensures
            final(s)@ == old(s)@ + magnitude_text(self.milli as int),
    {
        let a: u64 = if self.milli < 0 {
            (0i128 - (self.milli as i128)) as u64
        } else {
            self.milli as u64
        };
        assert(a == magnitude(self.milli as int));
        push_decimal(s, a / 1000);
        let f = a % 1000;
        if f != 0 {
            push_char(s, '.');
            let d1 = f / 100;
            let d2 = (f / 10) % 10;
            let d3 = f % 10;
            push_char(s, digit_to_char(d1));
            if d3 != 0 {
                push_char(s, digit_to_char(d2));
                push_char(s, digit_to_char(d3));
            } else if d2 != 0 {
                push_char(s, digit_to_char(d2));
            }
            assert(final(s)@ =~= old(s)@ + magnitude_text(self.milli as int));
        }
    }

    /// Appends the spelling of the number to `s`.
    pub fn push_text(&self, s: &mut String)
        ensures
            final(s)@ == old(s)@ + num_text(*self),
    {
        if self.milli < 0 {
            push_char(s, '-');
        }
        self.push_magnitude(s);
        assert(final(s)@ =~= old(s)@ + num_text(*self));
    }

    /// The spelling of the number.
    pub fn to_text(&self) -> (r: String)
        ensures
            r@ == num_text(*self),
    {
        let mut s = String::new();
        self.push_text(&mut s);
        assert(s@ =~= num_text(*self));
        s
    }
}

} // verus!
