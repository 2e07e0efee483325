//! Polynomials.

pub mod hypercube;
pub mod multilinear;
