use vstd::prelude::*;

verus! {

/// The failure kinds that the containers and the LU engine report.
///
/// Every failure is reported synchronously as an explicit `Err` value;
/// no operation of this crate panics on inputs that meet its `requires`.
#[derive(Clone, Copy, Debug, PartialEq, Eq, Structural)]
pub enum MatrixError {
    /// Operand shapes are incompatible for the requested operation.
    DimensionMismatch,
    /// A factorization was requested on a non-square matrix.
    NotSquare,
    /// A row of the input matrix has no entry of nonzero magnitude, so
    /// the scaling pass of the factorization cannot proceed.
    SingularMatrix,
    /// A container access lay outside `[0, rows)` or `[0, cols)`.
    IndexOutOfRange,
}

} // verus!
