//! Decimal rendering of numbers for diagnostic messages.

use vstd::prelude::*;

verus! {

/// The character of a single decimal digit `d` (`0 <= d < 10`).
pub open spec fn digit_char(d: nat) -> char {
    (48 + d) as char
}

/// Base-ten rendering of `n`: no sign, no leading zeros, no padding.
pub open spec fn decimal_digits(n: nat) -> Seq<char>
    decreases n,
{
    if n < 10 {
        seq![digit_char(n)]
    } else {
        decimal_digits(n / 10).push(digit_char(n % 10))
    }
}

/// `ToString::to_string` on a `usize`, which goes through the integer's
/// `Display` impl: the number in base ten, without sign or padding.
#[verifier::external_body]
pub(crate) fn usize_to_decimal(n: usize) -> (s: String)
    ensures
        s@ == decimal_digits(n as nat),
{
    n.to_string()
}

} // verus!
