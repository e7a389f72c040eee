//! Linear predictive coding over exact rational arithmetic.
//!
//! The engine estimates an autoregressive model of a discrete signal:
//! autocorrelation, the Levinson-Durbin recursion, forward prediction-error
//! (analysis) and reconstruction (synthesis) filtering, and evaluation of the
//! model's transfer function. All values are exact rationals, so every result
//! is pinned down exactly by its contract; a computation whose reduced
//! intermediate values would not fit the machine representation reports
//! an overflow error instead of returning an approximation.

use vstd::prelude::*;

pub mod rat;
pub mod sums;
pub mod acf;
pub mod levinson;
pub mod filter;
pub mod lpc;
pub mod envelope;

verus! {

/// Why an engine call could not produce a result.
#[derive(Clone, Copy, PartialEq, Eq, Structural, Debug)]
pub enum LpcError {
    /// Order and buffer lengths do not fit together (empty signal,
    /// order too large for the window, or mismatched buffer sizes).
    InvalidArgument,
    /// A division of the recursion hit a zero divisor: zero autocorrelation
    /// at lag zero, or a vanished error energy in the unguarded recursion.
    Degenerate,
    /// A reduced intermediate rational no longer fits the representation.
    Overflow,
}

} // verus!
