//! The latching checkbox's plaque placement.

use vstd::prelude::*;

verus! {

/// Side of a mechanism occupied by its etched identification plaque.
#[derive(Clone, Copy, Debug, Default, PartialEq, Eq)]
pub enum LabelSide {
    /// Place the plaque to the left of the mechanism.
    Left,
    /// Place the plaque to the right of the mechanism.
    #[default]
    Right,
}

} // verus!
