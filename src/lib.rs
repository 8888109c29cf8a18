//! Fast polynomial algebra over the BN254 scalar field on a fixed set of
//! `2^k` points, built on a subproduct tree.

pub mod algebra;
pub mod error;
pub mod field;
pub mod poly;
pub mod subtree;

pub use field::Scalar;
