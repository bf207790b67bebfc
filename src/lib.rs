//! A dense, row-major matrix with bounds-checked element access, the matrix
//! product and position-by-position addition. The element type is generic;
//! the product and the sum take their element operations as arguments.

pub mod error;
pub mod matrix;
