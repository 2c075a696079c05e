//! The ways an operation on surreal values can fail.

use vstd::prelude::*;

verus! {

/// Why an operation gave no value. Every failure follows from the
/// arguments alone; none is worth retrying.
#[derive(Debug, Clone, Copy, PartialEq, Eq, Structural)]
pub enum SurrealError {
    /// Some right option was at most some left option.
    ValidationError,
    /// The divisor equals zero.
    DivisionByZero,
    /// The quotient is no dyadic number that the library can hold.
    NonRepresentableQuotient,
    /// A nesting or step ceiling was reached.
    DepthExceeded,
}

} // verus!
