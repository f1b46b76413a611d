//! Modular arithmetic over an explicit modulus, and the Euclidean algorithms.
pub mod arith;
pub mod gcd;
pub mod modinv;
