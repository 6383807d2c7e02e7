use vstd::prelude::*;

verus! {

/// The ways in which evaluating, parsing or combining values can fail.
#[derive(Clone, Copy, Debug, PartialEq, Eq, Structural)]
pub enum EvalError {
    /// A division whose divisor is zero.
    DivisionByZero,
    /// Expression text that is outside the grammar.
    ParseError,
    /// Answer text that is not the canonical spelling of a fraction.
    MalformedFraction,
    /// A result whose reduced numerator or denominator does not fit the
    /// machine representation.
    Overflow,
}

} // verus!
