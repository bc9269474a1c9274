//! A corner-mounted close plunger.

use vstd::prelude::*;

use crate::chrome::mechanism::{MechanismSize, side_of, MECHANISM_SIDE_LARGE};

verus! {

/// A momentary close plunger centered on a pane's top-right corner.
#[derive(Clone, Copy, Debug, Default, PartialEq, Eq)]
pub struct CornerClose {
    size: MechanismSize,
}

/// Space above a pane occupied by the default large mechanism, in logical
/// points: half the large gauge's side.
pub const HEADROOM: u8 = 16;

/// Space above a pane occupied by the upper half of a mechanism of gauge
/// `size`, in logical points. Every gauge's side is even, so the half is
/// exact.
pub open spec fn headroom_of(size: MechanismSize) -> u8 {
    (side_of(size) / 2) as u8
}

/// How far a closure whose upper half rises `half` points reaches past a
/// frame's inner margin `margin`, never below zero.
pub open spec fn intrusion(half: u8, margin: i8) -> u8 {
    if half as int - margin as int > 0 {
        (half as int - margin as int) as u8
    } else {
        0
    }
}

impl CornerClose {
    /// The selected gauge.
    pub closed spec fn spec_size(self) -> MechanismSize {
        self.size
    }

    /// This closure with its gauge replaced by `size`.
    pub closed spec fn with_size(self, size: MechanismSize) -> CornerClose {
        CornerClose { size }
    }

    /// Forge the standard corner closure: the large gauge.
    pub fn new() -> (c: CornerClose)
        ensures
            c.spec_size() == MechanismSize::Large,
    {
        CornerClose { size: MechanismSize::Large }
    }

    /// Select a build-time forged square footprint.
    pub fn size(self, size: MechanismSize) -> (c: CornerClose)
        ensures
            c == self.with_size(size),
            c.spec_size() == size,
    {
        CornerClose { size }
    }

    /// Space above the pane occupied by this mechanism's upper half, in
    /// logical points.
    pub fn headroom(self) -> (h: u8)
        ensures
            h == headroom_of(self.spec_size()),
            2 * h == side_of(self.spec_size()),
    {
        self.size.side() / 2
    }

    /// Portion of the closure lying inside a frame's content rectangle, in
    /// logical points across and down, given the frame's right and top inner
    /// margins.
    pub fn pane_intrusion(self, right: i8, top: i8) -> (v: (u8, u8))
        ensures
            v.0 == intrusion(headroom_of(self.spec_size()), right),
            v.1 == intrusion(headroom_of(self.spec_size()), top),
    {
        let half = self.headroom();
        (reach(half, right), reach(half, top))
    }

    /// The selected gauge.
    pub fn gauge(self) -> (s: MechanismSize)
        ensures
            s == self.spec_size(),
    {
        self.size
    }
}

fn reach(half: u8, margin: i8) -> (r: u8)
    requires
        half <= 16,
    ensures
        r == intrusion(half, margin),
{
    let d = half as i16 - margin as i16;
    if d > 0 {
        d as u8
    } else {
        0
    }
}

/// The standard closure's headroom is [`HEADROOM`], half the large gauge.
pub proof fn lemma_standard_headroom()
    ensures
        headroom_of(MechanismSize::Large) == HEADROOM,
        2 * HEADROOM == MECHANISM_SIDE_LARGE,
        headroom_of(MechanismSize::Small) == 10,
        headroom_of(MechanismSize::Medium) == 12,
{
}

/// A corner closure is its gauge: two closures with the same gauge are the
/// same closure.
pub proof fn lemma_corner_close_is_its_gauge(a: CornerClose, b: CornerClose)
    ensures
        a.spec_size() == b.spec_size() <==> a == b,
{
}

/// Selecting a gauge sets exactly that gauge: the last selection wins, and
/// selecting the gauge a closure already has changes nothing.
pub proof fn lemma_size_last_wins(c: CornerClose, a: MechanismSize, b: MechanismSize)
    ensures
        c.with_size(a).spec_size() == a,
        c.with_size(a).with_size(b) == c.with_size(b),
        c.with_size(c.spec_size()) == c,
{
}

} // verus!
