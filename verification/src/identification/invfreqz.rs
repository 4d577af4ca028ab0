//! Fitting a transfer function to a frequency response.
use vstd::prelude::*;

verus! {

/// How the least-squares system of a frequency-response fit is solved.
#[derive(Clone, Copy, Debug, PartialEq, Eq, Structural)]
pub enum InvFreqMethod {
    /// Ordinary least squares.
    LS,
    /// Total least squares.
    TLS,
    /// Mixed least squares.
    MLS,
    /// Least squares through a QR decomposition.
    QR,
}

} // verus!
