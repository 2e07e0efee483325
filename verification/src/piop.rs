//! Interactive oracle proofs.

pub mod shift_open;
pub mod sum_check;
