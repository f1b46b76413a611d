//! Signature schemes over a cyclic subgroup of the clock curve.
pub mod ecdsa;
pub mod schnorr;
