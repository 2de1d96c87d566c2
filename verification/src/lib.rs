//! A small dense linear-algebra kernel: row-major matrix and vector
//! containers, elementwise matrix arithmetic, and an LU factorization
//! engine with scaled partial pivoting that solves linear systems,
//! computes determinants and inverts matrices.

pub mod errors;
pub mod lu_decomposition;
pub mod math_utilities;
pub mod matrix_operations;
pub mod scalar;
