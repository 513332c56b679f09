//! The errors that the engine reports to its callers.

use vstd::prelude::*;

verus! {

/// Why an operation was rejected. Every variant is a recoverable condition
/// caused by the caller's input.
#[derive(Clone, Copy, Debug, PartialEq, Eq, Structural)]
pub enum EngineError {
    /// The decimal is negative or is not a whole number of price units
    /// within the representable range.
    InvalidPrice,
    /// The order's size is zero.
    InvalidOrder,
    /// No book is registered for the trading pair.
    UnknownInstrument,
    /// No resting order carries the identifier.
    OrderNotFound,
}

} // verus!
