//! Reduced row echelon form of a dense matrix by Gauss-Jordan elimination,
//! and matrix inversion built on it.
//!
//! The entries are of any type implementing [`Scalar`]; the results are
//! stated exactly over that type's own operations (see `grid::reduced`).

pub mod grid;
pub mod laws;
pub mod matrix;
pub mod scalar;

pub use grid::MatrixError;
pub use matrix::Matrix;
pub use scalar::Scalar;
