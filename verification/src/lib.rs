//! Skeuomorphic controls and living water: the verified mechanism law.
//!
//! The crate holds the integer and state-machine core of the Poolrooms
//! chrome and water worlds: widget configuration, the water guard's poison
//! scan, the forensic dump framing, the drain clocks, the splash and touch
//! banks, and the basin bookkeeping. Rendering, floating-point optics and
//! GPU traffic stand outside it.

pub mod chrome;
pub mod water;
