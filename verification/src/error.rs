//! The ways an operation of the simulator can fail.

use vstd::prelude::*;

verus! {

/// Why an operation failed. A failed operation changes nothing.
#[derive(Clone, Copy, Debug, PartialEq, Eq, Structural)]
pub enum SimError {
    /// A gate was applied to a vector of a different dimension.
    DimensionMismatch,
    /// No vector within the limits stands for the exact result: even
    /// written with as few factors of `1/√2` as its numerators allow, it
    /// has a component, or a power of `√2`, beyond what is stored.
    Unrepresentable,
    /// The squared magnitudes of a vector do not sum to one.
    NumericalDrift,
}

} // verus!
