//! Decimal rendering of integers, for the diagnostic text of the layout.

use vstd::prelude::*;

verus! {

/// The character of a decimal digit `d < 10`.
pub open spec fn digit_char(d: u64) -> char {
    if d == 0 {
        '0'
    } else if d == 1 {
        '1'
    } else if d == 2 {
        '2'
    } else if d == 3 {
        '3'
    } else if d == 4 {
        '4'
    } else if d == 5 {
        '5'
    } else if d == 6 {
        '6'
    } else if d == 7 {
        '7'
    } else if d == 8 {
        '8'
    } else {
        '9'
    }
}

/// The decimal digits of `x`, most significant first, with no sign, no
/// padding and no leading zero (zero itself is `"0"`).
pub open spec fn decimal_digits(x: u64) -> Seq<char>
    decreases x,
{
    if x < 10 {
        seq![digit_char(x)]
    } else {
        decimal_digits(x / 10) + seq![digit_char(x % 10)]
    }
}

/// Relies on `ToString` for `u64`, which goes through its `Display`: the
/// decimal digits of the value.
#[verifier::external_body]
pub(crate) fn decimal(x: u64) -> (r: String)
    ensures
        r@ == decimal_digits(x),
{
    x.to_string()
}

} // verus!
