//! The clock curve `x^2 + y^2 = 1` over a small prime field, and its keys.
pub mod clockcurve;
pub mod curve31;
pub mod group_law;
pub mod keys;
