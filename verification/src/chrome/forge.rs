//! Integer gauges of the build-time foundry forge.

use vstd::prelude::*;

use crate::chrome::mechanism::{MechanismSize, atlas_of, side_of};

verus! {

/// Spacing of adjacent guard wires, in tenths of a logical point.
pub const WIRE_PITCH_TENTHS: i32 = 70;

/// Number of wires across a protective guard of side `side`: compact
/// guards drop wires rather than thinning them.
pub open spec fn wire_count(side: u8) -> int {
    if side <= 22 {
        2
    } else if side <= 28 {
        3
    } else {
        4
    }
}

/// Station of wire `i` of `n`, in tenths of a point from the guard's center.
pub open spec fn wire_station(n: int, i: int) -> int {
    (2 * i - (n - 1)) * 35
}

/// Wire stations of the protective guard on a mechanism of side `side`, in
/// tenths of a logical point from its center, ascending.
pub fn guard_wire_stations(side: u8) -> (stations: Vec<i32>)
    ensures
        stations@.len() == wire_count(side),
        forall|i: int| 0 <= i < stations@.len() ==> #[trigger] stations@[i] == wire_station(wire_count(side), i),
{
    let stations = if side <= 22 {
        vec![-35, 35]
    } else if side <= 28 {
        vec![-70, 0, 70]
    } else {
        vec![-105, -35, 35, 105]
    };
    proof {
        assert(stations@.len() == wire_count(side));
    }
    stations
}

/// Every guard's lattice is centered and evenly pitched, and the forged
/// gauges carry two, three and four wires in atlas order.
pub proof fn lemma_guard_lattice(size: MechanismSize, i: int)
    requires
        0 <= i < wire_count(side_of(size)),
    ensures
        wire_count(side_of(size)) == atlas_of(size) + 2,
        wire_station(wire_count(side_of(size)), i) == -wire_station(wire_count(side_of(size)), wire_count(side_of(size)) - 1 - i),
        i + 1 < wire_count(side_of(size)) ==> wire_station(wire_count(side_of(size)), i + 1) - wire_station(wire_count(side_of(size)), i) == WIRE_PITCH_TENTHS,
{
}

/// Crown cells of the corner-close die on a mechanism of side `side`.
pub fn close_crown_cells(side: u8) -> (cells: usize)
    ensures
        cells == side as int * 5 / 4,
{
    side as usize * 5 / 4
}

/// One of the two planes in which the numerical thumbwheel may turn.
#[derive(Clone, Copy, Debug, PartialEq, Eq)]
pub enum WheelPlane {
    XZ,
    YZ,
}

impl WheelPlane {
    /// Both planes, in atlas order.
    pub const ALL: [WheelPlane; 2] = [WheelPlane::XZ, WheelPlane::YZ];

    /// Stable name of the plane in the baked atlas.
    pub fn name(self) -> (n: &'static str)
        ensures
            self == WheelPlane::XZ ==> n@ == "XZ"@,
            self == WheelPlane::YZ ==> n@ == "YZ"@,
    {
        match self {
            WheelPlane::XZ => "XZ",
            WheelPlane::YZ => "YZ",
        }
    }
}

} // verus!
