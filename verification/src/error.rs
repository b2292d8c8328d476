//! The ways in which a call can be refused.

use vstd::prelude::*;

verus! {

/// Why an operator did not run.
#[derive(Debug)]
pub enum Error {
    /// Two sequences that have to agree in length do not: the first length
    /// is the one that was found, the second the one it was held against.
    LengthMismatch(usize, usize),
    /// A scalar parameter lies outside its domain.
    InvalidParameter(String),
    /// The window size is one for which the operator is not defined.
    InvalidPeriod(String),
}

/// The text carried by the error for a smoothing factor outside `[0, 1]`.
pub open spec fn alpha_text() -> Seq<char> {
    "alpha must be between 0 and 1"@
}

/// The text carried by the error for a window size of zero.
pub open spec fn period_text() -> Seq<char> {
    "periods must be greater than 0"@
}

/// The error for a smoothing factor outside `[0, 1]`.
pub fn invalid_alpha() -> (e: Error)
    ensures
        e matches Error::InvalidParameter(s) && s@ == alpha_text(),
{
    Error::InvalidParameter("alpha must be between 0 and 1".to_owned())
}

/// The error for a window size of zero where none is defined.
pub fn invalid_period() -> (e: Error)
    ensures
        e matches Error::InvalidPeriod(s) && s@ == period_text(),
{
    Error::InvalidPeriod("periods must be greater than 0".to_owned())
}

} // verus!
