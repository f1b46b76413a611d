//! Password-authenticated key exchange over the clock curve.
pub mod spake2;
