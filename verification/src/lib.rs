//! A dense, row-major matrix with row iteration and two multiplication
//! strategies, verified with Verus.
pub mod arith;
pub mod error;
pub mod integer;
pub mod iter;
pub mod matrix;
pub mod oper;
pub mod scalar;

pub use error::{Dimension, MatrixError};
pub use iter::{Rows, RowsMut};
pub use matrix::Matrix;
pub use oper::{multiply_naive, multiply_parallel};
pub use scalar::Scalar;
