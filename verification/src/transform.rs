//! Circuits of other proving systems.

pub mod circuit;
