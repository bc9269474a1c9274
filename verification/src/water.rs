//! Persistent water worlds: the integer law beneath the GPU basins.

pub mod dump;
pub mod engine;
pub mod grips;
pub mod guard;
pub mod machines;
pub mod surface;
