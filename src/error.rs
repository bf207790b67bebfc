use vstd::prelude::*;

verus! {

/// The binary operation that found its operands' shapes incompatible.
#[derive(Debug, Clone, Copy, PartialEq, Eq, Structural)]
pub enum Operation {
    /// The row-by-column matrix product.
    Multiply,
    /// Position-by-position addition of two equally shaped matrices.
    HadamardAdd,
}

/// Why a matrix operation failed. No operation recovers from either kind:
/// the caller gets the error and no partial result.
#[derive(Debug, Clone, Copy, PartialEq, Eq, Structural)]
pub enum MatrixError {
    /// An element access at (`row`, `col`) on a matrix of shape `rows` x `cols`
    /// with `row >= rows` or `col >= cols`.
    OutOfBounds { row: usize, col: usize, rows: usize, cols: usize },
    /// The shapes of the two operands do not fit `operation`.
    DimensionMismatch {
        operation: Operation,
        left_rows: usize,
        left_cols: usize,
        right_rows: usize,
        right_cols: usize,
    },
}

} // verus!
