//! Shared water law: shader capacities, field geometry and basin bookkeeping.

use vstd::prelude::*;

use crate::water::guard::Sentinel;
use crate::water::surface::{kept_entries, lemma_flagged_are_kept, lemma_kept_are_flagged, retain_by_flags};

verus! {

/// Blur levels below the scene.
pub const LEVELS: u32 = 3;
/// Screen pixels per field texel along each axis.
pub const FIELD_SCALE: u32 = 2;
/// Side of one compute workgroup, in texels.
pub const SIM_WORKGROUP: u32 = 8;
/// Solver steps per live frame.
pub const SIM_STEPS: usize = 4;
/// Lift plates the shader accepts.
pub const LIFT_SLOTS: usize = 4;
/// Splashes the shader accepts.
pub const SPLASH_SLOTS: usize = 32;
/// Control quivers the shader accepts.
pub const QUIVER_SLOTS: usize = 4;
/// Pond touches the shader accepts.
pub const TOUCH_SLOTS: usize = 12;

/// Elevation of a lift plate relative to the water.
#[derive(Clone, Copy, Debug, PartialEq, Eq)]
pub enum LiftDepth {
    Surface,
    Shallow,
}

/// Profile of one splash source.
#[derive(Clone, Copy, Debug, Default, PartialEq, Eq)]
pub enum SplashShape {
    #[default]
    Ring,
    Basin,
    /// A broadband velocity-noise impulse over the whole rect.
    Jitter,
}

/// Shader code of a splash shape.
pub open spec fn shape_code(shape: SplashShape) -> u8 {
    match shape {
        SplashShape::Ring => 0,
        SplashShape::Basin => 1,
        SplashShape::Jitter => 2,
    }
}

impl SplashShape {
    /// The shape's code in the shader's splash table.
    pub fn code(self) -> (c: u8)
        ensures
            c == shape_code(self),
    {
        match self {
            SplashShape::Ring => 0,
            SplashShape::Basin => 1,
            SplashShape::Jitter => 2,
        }
    }
}

/// Distinct shapes have distinct shader codes.
pub proof fn lemma_shape_codes_distinct(a: SplashShape, b: SplashShape)
    ensures
        shape_code(a) == shape_code(b) <==> a == b,
{
}

/// `ceil(n / d)`.
pub open spec fn ceil_div(n: int, d: int) -> int {
    (n + d - 1) / d
}

/// `max(n, 1)`.
pub open spec fn at_least_one(n: int) -> int {
    if n < 1 {
        1
    } else {
        n
    }
}

fn div_ceil(n: u32, d: u32) -> (q: u32)
    requires
        d > 0,
    ensures
        q == ceil_div(n as int, d as int),
{
    proof {
        assert(n % d != 0 ==> n / d < u32::MAX) by (nonlinear_arith)
            requires
                d > 0,
        ;
    }
    let q = n / d + if n % d == 0 {
        0
    } else {
        1
    };
    proof {
        let m = n as int;
        let k = d as int;
        assert(q == ceil_div(m, k)) by (nonlinear_arith)
            requires
                k > 0,
                m >= 0,
                q == m / k + if m % k == 0 {
                    0int
                } else {
                    1int
                },
        ;
    }
    q
}

/// Texel extent of the persistent field beneath a `width` x `height`
/// viewport: half resolution, rounded up, never empty.
pub fn field_extent(width: u32, height: u32) -> (e: (u32, u32))
    ensures
        e.0 == at_least_one(ceil_div(width as int, FIELD_SCALE as int)),
        e.1 == at_least_one(ceil_div(height as int, FIELD_SCALE as int)),
{
    let w = div_ceil(width, FIELD_SCALE);
    let h = div_ceil(height, FIELD_SCALE);
    (if w < 1 {
        1
    } else {
        w
    }, if h < 1 {
        1
    } else {
        h
    })
}

/// Workgroups dispatched for one solver step over a field extent.
pub fn workgroups(width: u32, height: u32) -> (g: (u32, u32))
    ensures
        g.0 == ceil_div(width as int, SIM_WORKGROUP as int),
        g.1 == ceil_div(height as int, SIM_WORKGROUP as int),
{
    (div_ceil(width, SIM_WORKGROUP), div_ceil(height, SIM_WORKGROUP))
}

/// Extents of the blur chain beneath a `width` x `height` scene: each level
/// halves the previous one, never below one texel.
pub open spec fn blur_extent(width: u32, height: u32, level: u32) -> (u32, u32) {
    (at_least_one((width >> level) as int) as u32, at_least_one((height >> level) as int) as u32)
}

/// The blur chain of a viewport: levels `1..=LEVELS`.
pub fn blur_chain(width: u32, height: u32) -> (chain: Vec<(u32, u32)>)
    ensures
        chain@.len() == LEVELS,
        forall|i: int| 0 <= i < LEVELS ==> #[trigger] chain@[i] == blur_extent(width, height, (i + 1) as u32),
{
    let mut chain: Vec<(u32, u32)> = Vec::new();
    let mut level: u32 = 1;
    while level <= LEVELS
        invariant
            1 <= level <= LEVELS + 1,
            chain@.len() == level - 1,
            forall|i: int| 0 <= i < level - 1 ==> #[trigger] chain@[i] == blur_extent(width, height, (i + 1) as u32),
        decreases LEVELS + 1 - level,
    {
        let w = width >> level;
        let h = height >> level;
        chain.push((if w < 1 {
            1
        } else {
            w
        }, if h < 1 {
            1
        } else {
            h
        }));
        level = level + 1;
    }
    chain
}

/// Viewport extent, or `None` when either side is zero and nothing is
/// rendered.
pub fn viewport_extent(width: u32, height: u32) -> (e: Option<(u32, u32)>)
    ensures
        e == (if width == 0 || height == 0 {
            None
        } else {
            Some((width, height))
        }),
{
    if width == 0 || height == 0 {
        None
    } else {
        Some((width, height))
    }
}

/// Ping-pong phase and generation of one persistent basin.
#[derive(Clone, Copy, Debug, PartialEq, Eq)]
pub struct BasinClock {
    /// Which of the two field textures holds the current state.
    pub phase: usize,
    /// Generation of the surface whose history the basin holds.
    pub generation: u64,
}

/// State of a basin clock after reconciling it with a frame's generation, and
/// whether the field must be cleared.
pub open spec fn reconcile_step(c: BasinClock, generation: u64) -> (BasinClock, bool) {
    if c.generation != generation {
        (BasinClock { phase: 0, generation }, true)
    } else {
        (c, false)
    }
}

/// Phase after `n` solver steps from `phase`.
pub open spec fn phase_after(phase: usize, n: nat) -> usize
    decreases n,
{
    if n == 0 {
        phase
    } else {
        phase_after((1 - phase) as usize, (n - 1) as nat)
    }
}

impl BasinClock {
    /// A freshly minted basin for a surface generation.
    pub fn new(generation: u64) -> (c: BasinClock)
        ensures
            c == (BasinClock { phase: 0, generation }),
    {
        BasinClock { phase: 0, generation }
    }

    /// Adopt a frame's surface generation; returns whether the basin's field
    /// belongs to an erased history and must be cleared.
    pub fn reconcile(&mut self, generation: u64) -> (clear: bool)
        ensures
            (*final(self), clear) == reconcile_step(*old(self), generation),
    {
        if self.generation != generation {
            self.phase = 0;
            self.generation = generation;
            true
        } else {
            false
        }
    }

    /// One solver step: returns the phase whose bindings the step reads, then
    /// flips to the texture it wrote.
    pub fn step(&mut self) -> (read: usize)
        requires
            old(self).phase < 2,
        ensures
            read == old(self).phase,
            final(self).phase == 1 - old(self).phase,
            final(self).generation == old(self).generation,
    {
        let read = self.phase;
        self.phase = 1 - self.phase;
        read
    }

    /// Run the solver steps of one frame: `SIM_STEPS` of them when the frame is
    /// live, none otherwise. Returns the phases read by the steps, in order.
    pub fn advance(&mut self, live: bool) -> (reads: Vec<usize>)
        requires
            old(self).phase < 2,
        ensures
            final(self).generation == old(self).generation,
            final(self).phase == phase_after(old(self).phase, if live {
                SIM_STEPS as nat
            } else {
                0
            }),
            reads@.len() == (if live {
                SIM_STEPS
            } else {
                0
            }),
            forall|i: int| 0 <= i < reads@.len() ==> #[trigger] reads@[i] == phase_after(old(self).phase, i as nat),
    {
        let mut reads: Vec<usize> = Vec::new();
        if !live {
            return reads;
        }
        let ghost start = self.phase;
        let mut n: usize = 0;
        while n < SIM_STEPS
            invariant
                n <= SIM_STEPS,
                start < 2,
                self.phase < 2,
                self.phase == phase_after(start, n as nat),
                self.generation == old(self).generation,
                start == old(self).phase,
                reads@.len() == n,
                forall|i: int| 0 <= i < n ==> #[trigger] reads@[i] == phase_after(start, i as nat),
            decreases SIM_STEPS - n,
        {
            proof {
                lemma_phase_after_split(start, n as nat);
            }
            let read = self.step();
            reads.push(read);
            n = n + 1;
        }
        reads
    }
}

proof fn lemma_phase_after_split(phase: usize, n: nat)
    requires
        phase < 2,
    ensures
        phase_after(phase, n) < 2,
        phase_after(phase, n + 1) == 1 - phase_after(phase, n),
    decreases n,
{
    assert(phase_after(phase, n + 1) == phase_after((1 - phase) as usize, n));
    if n > 0 {
        lemma_phase_after_split((1 - phase) as usize, (n - 1) as nat);
        assert(phase_after(phase, n) == phase_after((1 - phase) as usize, (n - 1) as nat));
    }
}

/// Solver steps come in pairs, so a live frame leaves the basin reading the
/// same texture it started from, and successive steps alternate textures.
pub proof fn lemma_live_frame_keeps_phase(phase: usize)
    requires
        phase < 2,
    ensures
        phase_after(phase, SIM_STEPS as nat) == phase,
        phase_after(phase, 1) != phase,
{
    reveal_with_fuel(phase_after, 5);
}

/// Reconciling twice with one generation clears at most once: the second
/// reconciliation finds the basin current.
pub proof fn lemma_reconcile_idempotent(c: BasinClock, generation: u64)
    ensures
        reconcile_step(reconcile_step(c, generation).0, generation) == (reconcile_step(c, generation).0, false),
        reconcile_step(c, generation).0.generation == generation,
{
}

/// The bookkeeping of one surface's persistent basin: its ping-pong clock
/// and the sentinel that watches its field.
#[derive(Clone, Copy, Debug, PartialEq, Eq)]
pub struct BasinState {
    pub clock: BasinClock,
    pub sentinel: Sentinel,
}

/// A freshly minted basin for a surface generation: phase zero, an idle
/// sentinel due at once.
pub open spec fn fresh_basin(generation: u64) -> BasinState {
    BasinState {
        clock: BasinClock { phase: 0, generation },
        sentinel: Sentinel { next: None, probe: None },
    }
}

/// A basin after reconciling it with a frame's generation, and whether its
/// field must be cleared: a basin holding an erased history drops its
/// pending probe, restarts on its first texture and adopts the generation.
pub open spec fn basin_reconcile(b: BasinState, generation: u64) -> (BasinState, bool) {
    if b.clock.generation != generation {
        (
            BasinState {
                clock: BasinClock { phase: 0, generation },
                sentinel: Sentinel { probe: None, ..b.sentinel },
            },
            true,
        )
    } else {
        (b, false)
    }
}

/// First position of the basin of surface `id`, if any.
pub open spec fn basin_of(s: Seq<(u64, BasinState)>, id: u64) -> Option<int> {
    if exists|i: int| 0 <= i < s.len() && s[i].0 == id {
        Some(choose|i: int| 0 <= i < s.len() && s[i].0 == id && forall|j: int| 0 <= j < i ==> s[j].0 != id)
    } else {
        None
    }
}

/// The basins after a frame of surface `id` at `generation`, given which
/// basins still have a live surface: the dead ones are released, the
/// surface's basin is reconciled, or minted when it has none, and every
/// other basin is left as it was.
pub open spec fn ensured(s: Seq<(u64, BasinState)>, live: Seq<bool>, id: u64, generation: u64) -> (Seq<(u64, BasinState)>, bool) {
    let kept = kept_entries(s, live, live.len() as int);
    match basin_of(kept, id) {
        Some(i) => (kept.update(i, (id, basin_reconcile(kept[i].1, generation).0)), basin_reconcile(kept[i].1, generation).1),
        None => (kept.push((id, fresh_basin(generation))), false),
    }
}

/// The persistent basins of one viewport, keyed by surface identity.
pub struct Basins {
    entries: Vec<(u64, BasinState)>,
}

impl View for Basins {
    type V = Seq<(u64, BasinState)>;

    closed spec fn view(&self) -> Seq<(u64, BasinState)> {
        self.entries@
    }
}

impl Basins {
    /// No basin yet.
    pub fn new() -> (b: Basins)
        ensures
            b@ == Seq::<(u64, BasinState)>::empty(),
    {
        Basins { entries: Vec::new() }
    }

    /// Number of basins.
    pub fn len(&self) -> (n: usize)
        ensures
            n == self@.len(),
    {
        self.entries.len()
    }

    /// The basin at position `i`, with its surface identity.
    pub fn get(&self, i: usize) -> (e: (u64, BasinState))
        requires
            i < self@.len(),
        ensures
            e == self@[i as int],
    {
        self.entries[i]
    }

    /// Replace the bookkeeping of the basin at position `i`.
    pub fn set(&mut self, i: usize, state: BasinState)
        requires
            i < old(self)@.len(),
        ensures
            final(self)@ == old(self)@.update(i as int, (old(self)@[i as int].0, state)),
    {
        let id = self.entries[i].0;
        self.entries.set(i, (id, state));
    }

    /// Position of the basin of surface `id`.
    pub fn find(&self, id: u64) -> (i: Option<usize>)
        ensures
            i matches Some(k) ==> k < self@.len() && basin_of(self@, id) == Some(k as int),
            i is None ==> basin_of(self@, id) is None,
    {
        let mut i: usize = 0;
        while i < self.entries.len()
            invariant
                i <= self@.len(),
                self@ == self.entries@,
                forall|j: int| 0 <= j < i ==> self@[j].0 != id,
            decreases self@.len() - i,
        {
            if self.entries[i].0 == id {
                proof {
                    lemma_basin_of_is(self@, id, i as int);
                }
                return Some(i);
            }
            i = i + 1;
        }
        None
    }

    /// Prepare the basin of surface `id` for a frame at `generation`:
    /// release the basins whose surfaces died (`live` flags each basin),
    /// mint the surface's basin if it has none, and reconcile it. Returns
    /// whether its field must be cleared.
    pub fn ensure(&mut self, live: &[bool], id: u64, generation: u64) -> (clear: bool)
        requires
            live@.len() == old(self)@.len(),
        ensures
            (final(self)@, clear) == ensured(old(self)@, live@, id, generation),
    {
        let kept = retain_by_flags(&self.entries, live);
        self.entries = kept;
        match self.find(id) {
            Some(i) => {
                let b = self.entries[i].1;
                let mut clock = b.clock;
                let mut sentinel = b.sentinel;
                let clear = clock.reconcile(generation);
                if clear {
                    sentinel.disarm();
                }
                self.entries.set(i, (id, BasinState { clock, sentinel }));
                clear
            },
            None => {
                self.entries.push((id, BasinState { clock: BasinClock::new(generation), sentinel: Sentinel::new() }));
                false
            },
        }
    }

    /// Becalm every basin: each drops its pending probe, and the owner
    /// clears each field.
    pub fn becalm(&mut self)
        ensures
            final(self)@.len() == old(self)@.len(),
            forall|i: int| 0 <= i < old(self)@.len() ==> #[trigger] final(self)@[i] == (old(self)@[i].0, BasinState {
                clock: old(self)@[i].1.clock,
                sentinel: Sentinel { probe: None, ..old(self)@[i].1.sentinel },
            }),
    {
        let mut i: usize = 0;
        while i < self.entries.len()
            invariant
                i <= self@.len(),
                self@.len() == old(self)@.len(),
                forall|j: int| i <= j < self@.len() ==> #[trigger] self@[j] == old(self)@[j],
                forall|j: int| 0 <= j < i ==> #[trigger] self@[j] == (old(self)@[j].0, BasinState {
                    clock: old(self)@[j].1.clock,
                    sentinel: Sentinel { probe: None, ..old(self)@[j].1.sentinel },
                }),
            decreases self@.len() - i,
        {
            let (id, b) = self.entries[i];
            let mut sentinel = b.sentinel;
            sentinel.disarm();
            self.entries.set(i, (id, BasinState { clock: b.clock, sentinel }));
            i = i + 1;
        }
    }
}

proof fn lemma_basin_of_is(s: Seq<(u64, BasinState)>, id: u64, i: int)
    requires
        0 <= i < s.len(),
        s[i].0 == id,
        forall|j: int| 0 <= j < i ==> s[j].0 != id,
    ensures
        basin_of(s, id) == Some(i),
{
    let c = choose|c: int| 0 <= c < s.len() && s[c].0 == id && forall|j: int| 0 <= j < c ==> s[j].0 != id;
    assert(0 <= c < s.len() && s[c].0 == id && forall|j: int| 0 <= j < c ==> s[j].0 != id);
    if c < i {
        assert(s[c].0 != id);
    } else if c > i {
        assert(s[i].0 != id);
    }
}

proof fn lemma_basin_of_scan(s: Seq<(u64, BasinState)>, id: u64, k: int)
    requires
        0 <= k <= s.len(),
        forall|j: int| 0 <= j < k ==> s[j].0 != id,
        exists|i: int| k <= i < s.len() && s[i].0 == id,
    ensures
        basin_of(s, id) matches Some(i) && 0 <= i < s.len() && s[i].0 == id,
    decreases s.len() - k,
{
    let w = choose|i: int| k <= i < s.len() && s[i].0 == id;
    if s[k].0 == id {
        lemma_basin_of_is(s, id, k);
    } else {
        assert(w != k);
        lemma_basin_of_scan(s, id, k + 1);
    }
}

/// `basin_of` names a basin of the surface whenever one exists.
proof fn lemma_basin_of_found(s: Seq<(u64, BasinState)>, id: u64)
    ensures
        basin_of(s, id) matches Some(i) ==> 0 <= i < s.len() && s[i].0 == id,
{
    if exists|i: int| 0 <= i < s.len() && s[i].0 == id {
        lemma_basin_of_scan(s, id, 0);
    }
}

/// A frame at the generation its basin already holds leaves every basin as
/// it was: no clear, the same phase, and the guard's pending probe still in
/// flight. Only dead basins are released.
pub proof fn lemma_current_basin_untouched(s: Seq<(u64, BasinState)>, live: Seq<bool>, id: u64, generation: u64, i: int)
    requires
        live.len() == s.len(),
        basin_of(kept_entries(s, live, live.len() as int), id) == Some(i),
        kept_entries(s, live, live.len() as int)[i].1.clock.generation == generation,
    ensures
        ensured(s, live, id, generation) == (kept_entries(s, live, live.len() as int), false),
{
    let kept = kept_entries(s, live, live.len() as int);
    lemma_basin_of_found(kept, id);
    assert(kept.update(i, (id, kept[i].1)) =~= kept);
}

/// A frame releases exactly the basins whose surfaces died: every basin it
/// leaves was live before it or is the frame's own, and every live basin
/// survives it.
pub proof fn lemma_only_dead_basins_released(s: Seq<(u64, BasinState)>, live: Seq<bool>, id: u64, generation: u64, j: int, k: int)
    requires
        live.len() == s.len(),
    ensures
        0 <= j < s.len() && live[j] && s[j].0 != id ==> exists|m: int|
            0 <= m < ensured(s, live, id, generation).0.len() && #[trigger] ensured(s, live, id, generation).0[m] == s[j],
        0 <= k < ensured(s, live, id, generation).0.len() && ensured(s, live, id, generation).0[k].0 != id ==> exists|
            m: int,
        | 0 <= m < s.len() && live[m] && #[trigger] s[m] == ensured(s, live, id, generation).0[k],
{
    let kept = kept_entries(s, live, live.len() as int);
    let out = ensured(s, live, id, generation).0;
    lemma_basin_of_found(kept, id);
    if 0 <= j < s.len() && live[j] && s[j].0 != id {
        lemma_flagged_are_kept(s, live, live.len() as int, j);
        let m = choose|m: int| 0 <= m < kept.len() && #[trigger] kept[m] == s[j];
        assert(out[m] == kept[m]);
    }
    if 0 <= k < out.len() && out[k].0 != id {
        assert(k < kept.len() && out[k] == kept[k]);
        lemma_kept_are_flagged(s, live, live.len() as int, k);
        let m = choose|m: int| 0 <= m < live.len() && live[m] && s[m] == #[trigger] kept[k];
        assert(s[m] == out[k]);
    }
}

/// A reset reaches the basin: when a surface's generation moved past the one
/// its live basin holds, the next frame clears that field, drops its pending
/// probe and restarts it on its first texture, while every other surviving
/// basin is left untouched.
pub proof fn lemma_reset_reaches_basin(s: Seq<(u64, BasinState)>, live: Seq<bool>, id: u64, generation: u64, i: int)
    requires
        live.len() == s.len(),
        0 <= i < kept_entries(s, live, live.len() as int).len(),
        basin_of(kept_entries(s, live, live.len() as int), id) == Some(i),
        kept_entries(s, live, live.len() as int)[i].1.clock.generation != generation,
    ensures
        ensured(s, live, id, generation).1,
        ensured(s, live, id, generation).0[i].1.clock == (BasinClock { phase: 0, generation }),
        ensured(s, live, id, generation).0[i].1.sentinel.probe is None,
        ensured(s, live, id, generation).0.len() == kept_entries(s, live, live.len() as int).len(),
        forall|j: int|
            0 <= j < ensured(s, live, id, generation).0.len() && j != i ==> #[trigger] ensured(s, live, id, generation).0[j]
                == kept_entries(s, live, live.len() as int)[j],
{
}

} // verus!
