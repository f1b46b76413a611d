//! Arithmetic in the field of integers modulo a fixed prime.
pub mod field;
