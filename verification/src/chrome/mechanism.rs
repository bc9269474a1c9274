//! The build-time forged gauges shared by every square mechanism.

use vstd::prelude::*;

verus! {

/// Nominal side of the small gauge, in logical points.
pub const MECHANISM_SIDE_SMALL: u8 = 20;
/// Nominal side of the medium gauge, in logical points.
pub const MECHANISM_SIDE_MEDIUM: u8 = 24;
/// Nominal side of the large gauge, in logical points.
pub const MECHANISM_SIDE_LARGE: u8 = 32;

/// One of the exact square footprints forged at build time.
#[derive(Clone, Copy, Debug, Default, PartialEq, Eq)]
pub enum MechanismSize {
    Small,
    Medium,
    #[default]
    Large,
}

/// Side of a gauge in logical points.
pub open spec fn side_of(size: MechanismSize) -> u8 {
    match size {
        MechanismSize::Small => MECHANISM_SIDE_SMALL,
        MechanismSize::Medium => MECHANISM_SIDE_MEDIUM,
        MechanismSize::Large => MECHANISM_SIDE_LARGE,
    }
}

/// Position of a gauge in the forge's atlas roster (small, medium, large).
pub open spec fn atlas_of(size: MechanismSize) -> usize {
    match size {
        MechanismSize::Small => 0,
        MechanismSize::Medium => 1,
        MechanismSize::Large => 2,
    }
}

impl MechanismSize {
    /// Side of the square footprint in logical points.
    pub fn side(self) -> (s: u8)
        ensures
            s == side_of(self),
    {
        match self {
            MechanismSize::Small => MECHANISM_SIDE_SMALL,
            MechanismSize::Medium => MECHANISM_SIDE_MEDIUM,
            MechanismSize::Large => MECHANISM_SIDE_LARGE,
        }
    }

    /// Index of this gauge's baked atlas.
    pub fn atlas_index(self) -> (i: usize)
        ensures
            i == atlas_of(self),
    {
        match self {
            MechanismSize::Small => 0,
            MechanismSize::Medium => 1,
            MechanismSize::Large => 2,
        }
    }
}

/// Larger gauges are strictly wider, so the atlas roster runs small to large.
pub proof fn lemma_atlas_orders_sides(a: MechanismSize, b: MechanismSize)
    ensures
        atlas_of(a) < atlas_of(b) <==> side_of(a) < side_of(b),
        atlas_of(a) == atlas_of(b) <==> a == b,
{
}

} // verus!
