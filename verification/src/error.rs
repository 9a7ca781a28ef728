//! The ways in which an operation on big numbers can fail.

use vstd::prelude::*;

verus! {

/// Why a big number could not be made or computed.
#[derive(Clone, Copy, Debug, PartialEq, Eq, Structural)]
pub enum BigNumberError {
    /// A character of the text is neither a decimal digit nor a minus sign
    /// in the first place.
    InvalidDigit,
    /// The divisor is zero.
    DivisionByZero,
}

} // verus!
