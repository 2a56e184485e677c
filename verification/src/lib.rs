//! Dense square matrices of order `1..=1000`, their numerical rank by Gaussian
//! elimination with partial pivoting, and reproducible generators of test
//! matrices.
//!
//! Entries, tolerances and logarithms are IEEE-754 binary64 values held by
//! their bit patterns (`f64::to_bits`).  Comparisons, signs and absolute values
//! are computed on the bits; arithmetic comes from a [`FloatArithmetic`]
//! implementation supplied by the caller.
pub mod ieee;
pub mod matrix;
pub mod elimination;
pub mod generator;
pub mod decimal;
pub mod cli;

pub use elimination::Analysis;
pub use generator::{generate_matrix, MatrixKind, SplitMix64};
pub use ieee::FloatArithmetic;
pub use matrix::{Matrix, MatrixError, MAX_ORDER};
