//! Failure values of the matrix operations.
use vstd::prelude::*;

verus! {

/// One of the two dimensions of a matrix.
#[derive(Clone, Copy, Debug, PartialEq, Eq, Structural)]
pub enum Dimension {
    Rows,
    Columns,
}

/// Why a matrix operation refused its input.
#[derive(Clone, Copy, Debug, PartialEq, Eq, Structural)]
pub enum MatrixError {
    /// A constructor was asked for zero rows or zero columns.
    InvalidDimension { dimension: Dimension },
    /// The left operand's column count differs from the right operand's
    /// row count.
    DimensionMismatch { num_columns: usize, num_rows: usize },
    /// A row index was not less than the number of rows.
    IndexOutOfRange { index: usize, num_rows: usize },
}

} // verus!
