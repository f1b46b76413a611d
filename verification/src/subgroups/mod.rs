//! Cyclic subgroups of the clock curve's group of points.
pub mod subgroup;
