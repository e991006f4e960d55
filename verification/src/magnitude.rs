//! The parsed quantity: an exact decimal magnitude, kept as the digit
//! characters of its integer part and of its fractional part.

use crate::digits::all_digits;
use vstd::prelude::*;

verus! {

/// An exact nonnegative decimal number, as produced by the size parser:
/// the digits before the decimal point and the digits after it.
///
/// The represented value is
/// `digits_val(int_digits) + digits_val(frac_digits) / pow10(frac_digits.len())`.
pub struct Magnitude {
    /// The digits of the integer part, most significant first (at least one).
    pub int_digits: Vec<char>,
    /// The digits of the fractional part (empty when the number is integral).
    pub frac_digits: Vec<char>,
}

impl Magnitude {
    /// Both parts hold only digit characters and the integer part is nonempty.
    pub open spec fn wf(self) -> bool {
        &&& all_digits(self.int_digits@)
        &&& all_digits(self.frac_digits@)
        &&& self.int_digits@.len() >= 1
    }
}

} // verus!
