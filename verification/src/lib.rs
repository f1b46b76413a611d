//! Finite-field arithmetic, the clock-curve group over a small prime field,
//! and toy signature and key-exchange protocols built on that group.
pub mod algebra;
pub mod curves;
pub mod fields;
pub mod signatures;
pub mod subgroups;
pub mod zkps;
