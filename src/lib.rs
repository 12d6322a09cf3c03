//! A fixed-point 2D particle step: gravity, pairwise contact resolution over a
//! uniform grid, boundary clamping and Verlet integration with re-bucketing.
//! Coordinates are integers in units of `1 / UNIT` of a grid cell.

pub mod config;
pub mod fixed;
pub mod laws;
pub mod particle;
pub mod simulation;
pub mod world;
