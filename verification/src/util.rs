//! Field arithmetic, hashing and transcripts.

pub mod bn256;
pub mod code;
pub mod expression;
pub mod field;
pub mod hash;
pub mod integer;
pub mod modular;
pub mod ordered;
pub mod polynomial;
pub mod sum;
pub mod text;
pub mod transcript;
