//! Mechanical chrome: configuration of the bronze controls.

pub mod checkbox;
pub mod corner_close;
pub mod forge;
pub mod foundry;
pub mod mechanism;
pub mod monoglyph;
pub mod rail;
