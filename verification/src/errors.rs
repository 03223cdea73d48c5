use vstd::prelude::*;

verus! {

/// The error taxonomy of the kernel.
///
/// Every fallible operation reports one of these instead of silently
/// propagating a meaningless value: shape disagreement, a bad index, a
/// domain violation (division or normalization by zero), or a numeric
/// failure (a result that cannot be represented exactly, or a singular
/// Pade denominator).
#[derive(Clone, Copy, Debug, PartialEq, Eq, Structural)]
pub enum KernelError {
    /// Operands have incompatible shapes.
    DimensionMismatch,
    /// A get or set outside the container's bounds.
    IndexOutOfRange,
    /// Division by zero, normalization of a zero vector, or a square root
    /// of a negative number.
    DomainError,
    /// The exact result cannot be represented (overflow of the underlying
    /// integers, an inexact square root), or a singular denominator in the
    /// Pade approximant.
    NumericalError,
}

} // verus!
