//! One application-facing water world: identity, history generations and the
//! bounded banks of forcing that feed the shader's fixed tables.

use vstd::prelude::*;

use crate::chrome::foundry::{exponent_field, fraction_field, sign_field};
use crate::water::engine::{reconcile_step, BasinClock, LIFT_SLOTS, SPLASH_SLOTS, TOUCH_SLOTS};

verus! {

/// Identity of one water world's persistent basin.
#[derive(Clone, Copy, Debug, PartialEq, Eq, Hash)]
pub struct SurfaceId(pub u64);

/// The source of surface identities: the next identity to hand out.
#[derive(Debug)]
pub struct SurfaceIds {
    pub next: u64,
}

impl SurfaceIds {
    /// A fresh source; identities start at one.
    pub fn new() -> (ids: SurfaceIds)
        ensures
            ids.next == 1,
    {
        SurfaceIds { next: 1 }
    }
}

impl SurfaceId {
    /// Hand out the next identity, advancing the counter with wrap-around.
    pub fn mint(ids: &mut SurfaceIds) -> (id: SurfaceId)
        ensures
            id.0 == old(ids).next,
            final(ids).next == old(ids).next.wrapping_add(1),
    {
        let id = SurfaceId(ids.next);
        ids.next = ids.next.wrapping_add(1);
        id
    }
}

/// Identities handed out by consecutive mints differ: the counter never
/// repeats a value within a full cycle of 2^64 mints.
pub proof fn lemma_consecutive_mints_differ(next: u64)
    ensures
        next.wrapping_add(1) != next,
        next.wrapping_add(1).wrapping_add(1) != next,
{
}

/// The counter of a fresh source after `k` mints: the identity that mint
/// number `k` (counting from zero) hands out.
pub open spec fn minted(k: nat) -> u64
    decreases k,
{
    if k == 0 {
        1
    } else {
        minted((k - 1) as nat).wrapping_add(1)
    }
}

proof fn lemma_minted_counts(k: nat)
    requires
        k < u64::MAX,
    ensures
        minted(k) == k + 1,
    decreases k,
{
    if k > 0 {
        lemma_minted_counts((k - 1) as nat);
    }
}

/// Identities minted from one fresh source are nonzero and strictly
/// increasing, hence pairwise distinct, for the first `2^64 - 1` mints: two
/// surfaces never share a persistent basin.
pub proof fn lemma_mints_distinct_and_increasing(i: nat, j: nat)
    requires
        i < j < u64::MAX,
    ensures
        minted(i) != 0,
        minted(i) < minted(j),
        minted(i) != minted(j),
{
    lemma_minted_counts(i);
    lemma_minted_counts(j);
}

/// The generation that follows `generation` when a surface erases its
/// history.
pub open spec fn next_generation(generation: u64) -> u64 {
    generation.wrapping_add(1)
}

/// Advance a surface's history generation on reset.
pub fn advance_generation(generation: u64) -> (g: u64)
    ensures
        g == next_generation(generation),
{
    generation.wrapping_add(1)
}

/// A reset always changes the generation, so the basin that held the erased
/// history is cleared, and restarted on its first texture, when it is next
/// reconciled with the surface.
pub proof fn lemma_reset_clears_basin(basin: BasinClock)
    ensures
        next_generation(basin.generation) != basin.generation,
        reconcile_step(basin, next_generation(basin.generation)).1,
        reconcile_step(basin, next_generation(basin.generation)).0 == (BasinClock {
            phase: 0,
            generation: next_generation(basin.generation),
        }),
{
}

/// How much water a surface carries.
#[derive(Clone, Copy, Debug, Default, PartialEq, Eq)]
pub enum Wetness {
    Dry,
    #[default]
    Wet,
    Deluge,
}

impl Wetness {
    /// A dry surface renders no water and sheds no forcing.
    pub fn dry(self) -> (d: bool)
        ensures
            d == (self == Wetness::Dry),
    {
        match self {
            Wetness::Dry => true,
            _ => false,
        }
    }
}

/// `f32::EPSILON`: pokes whose scaled amplitude is no larger vanish.
pub const AMP_EPSILON_BITS: u32 = 0x3400_0000;

/// Strength key of an `f32` amplitude: its magnitude's bit pattern. For
/// magnitudes the `f32` total order is the unsigned order of this key.
pub open spec fn strength(amp_bits: u32) -> u32 {
    amp_bits & 0x7fff_ffff
}

/// An amplitude's strength key is its magnitude: the sign is cleared and the
/// exponent and fraction are kept, so no two magnitudes share a key.
pub proof fn lemma_strength_is_magnitude(a: u32)
    ensures
        sign_field(strength(a)) == 0,
        exponent_field(strength(a)) == exponent_field(a),
        fraction_field(strength(a)) == fraction_field(a),
{
    assert(((a & 0x7fff_ffffu32) >> 31u32) == 0u32) by (bit_vector);
    assert((((a & 0x7fff_ffffu32) >> 23u32) & 0xffu32) == ((a >> 23u32) & 0xffu32)) by (bit_vector);
    assert(((a & 0x7fff_ffffu32) & 0x7f_ffffu32) == (a & 0x7f_ffffu32)) by (bit_vector);
}

/// Strength keys order amplitudes by magnitude, the IEEE order of `|amp|`:
/// a larger exponent is larger, and within one exponent a larger fraction
/// is. So the first weakest splash that a full bank displaces never has a
/// larger `|amp|` than a splash that stays.
pub proof fn lemma_strength_orders_magnitudes(a: u32, b: u32)
    ensures
        strength(a) < strength(b) <==> (exponent_field(a) < exponent_field(b) || (exponent_field(a)
            == exponent_field(b) && fraction_field(a) < fraction_field(b))),
        strength(a) == strength(b) <==> (exponent_field(a) == exponent_field(b) && fraction_field(a)
            == fraction_field(b)),
{
    assert((a & 0x7fff_ffffu32) < (b & 0x7fff_ffffu32) <==> (((a >> 23u32) & 0xffu32) < ((b >> 23u32)
        & 0xffu32) || (((a >> 23u32) & 0xffu32) == ((b >> 23u32) & 0xffu32) && (a & 0x7f_ffffu32) < (b
        & 0x7f_ffffu32)))) by (bit_vector);
    assert((a & 0x7fff_ffffu32) == (b & 0x7fff_ffffu32) <==> (((a >> 23u32) & 0xffu32) == ((b >> 23u32)
        & 0xffu32) && (a & 0x7f_ffffu32) == (b & 0x7f_ffffu32))) by (bit_vector);
}

/// First position holding a weakest key.
pub open spec fn is_first_weakest<T>(entries: Seq<(u32, T)>, i: int) -> bool {
    &&& 0 <= i < entries.len()
    &&& forall|j: int| 0 <= j < entries.len() ==> entries[i].0 <= #[trigger] entries[j].0
    &&& forall|j: int| 0 <= j < i ==> entries[i].0 < #[trigger] entries[j].0
}

/// Bank contents after a poke of strength `key` carrying `item`.
pub open spec fn poke_step<T>(entries: Seq<(u32, T)>, key: u32, item: T, victim: int) -> Seq<(u32, T)> {
    if entries.len() >= SPLASH_SLOTS {
        entries.remove(victim).push((key, item))
    } else {
        entries.push((key, item))
    }
}

/// Splashes awaiting the shader, each with its strength key. At most
/// [`SPLASH_SLOTS`] are held; a poke into a full bank displaces the first
/// weakest splash.
pub struct SplashBank<T> {
    entries: Vec<(u32, T)>,
}

impl<T> View for SplashBank<T> {
    type V = Seq<(u32, T)>;

    closed spec fn view(&self) -> Seq<(u32, T)> {
        self.entries@
    }
}

impl<T> SplashBank<T> {
    #[verifier::type_invariant]
    closed spec fn bounded(&self) -> bool {
        self.entries@.len() <= SPLASH_SLOTS
    }
}

impl<T: Copy> SplashBank<T> {
    /// An empty bank.
    pub fn new() -> (b: SplashBank<T>)
        ensures
            b@ == Seq::<(u32, T)>::empty(),
    {
        SplashBank { entries: Vec::new() }
    }

    /// Number of held splashes.
    pub fn len(&self) -> (n: usize)
        ensures
            n == self@.len(),
            n <= SPLASH_SLOTS,
    {
        proof {
            use_type_invariant(self);
        }
        self.entries.len()
    }

    /// The held splash at position `i`, with its strength key.
    pub fn get(&self, i: usize) -> (e: (u32, T))
        requires
            i < self@.len(),
        ensures
            e == self@[i as int],
    {
        self.entries[i]
    }

    /// Record a splash of amplitude bits `amp_bits`. A splash no stronger than
    /// `f32::EPSILON` is dropped (returns `false`). Otherwise, when the bank is
    /// full, the first weakest splash is displaced before the new one is
    /// appended.
    pub fn poke(&mut self, amp_bits: u32, item: T) -> (kept: bool)
        ensures
            kept == (strength(amp_bits) > AMP_EPSILON_BITS),
            !kept ==> final(self)@ == old(self)@,
            kept ==> exists|victim: int|
                {
                    &&& (old(self)@.len() >= SPLASH_SLOTS ==> is_first_weakest(old(self)@, victim))
                    &&& final(self)@ == #[trigger] poke_step(old(self)@, strength(amp_bits), item, victim)
                },
            final(self)@.len() <= SPLASH_SLOTS,
    {
        proof {
            use_type_invariant(&*self);
        }
        let key = amp_bits & 0x7fff_ffff;
        if key <= AMP_EPSILON_BITS {
            return false;
        }
        let ghost before = self.entries@;
        let mut entries: Vec<(u32, T)> = Vec::new();
        std::mem::swap(&mut entries, &mut self.entries);
        let ghost mut chosen: int = 0;
        if entries.len() >= SPLASH_SLOTS {
            let victim = first_weakest(&entries);
            let _weakest = entries.remove(victim);
            proof {
                chosen = victim as int;
            }
        }
        entries.push((key, item));
        proof {
            assert(key == strength(amp_bits));
            assert(entries@ =~= poke_step(before, key, item, chosen));
            assert(before.len() >= SPLASH_SLOTS ==> is_first_weakest(before, chosen));
        }
        self.entries = entries;
        proof {
            assert(self@ == poke_step(before, strength(amp_bits), item, chosen));
            assert(old(self)@ == before);
            assert(old(self)@.len() >= SPLASH_SLOTS ==> is_first_weakest(old(self)@, chosen));
        }
        true
    }

    /// Keep exactly the splashes whose flag is set, in order.
    pub fn retain_flagged(&mut self, keep: &[bool])
        requires
            keep@.len() == old(self)@.len(),
        ensures
            final(self)@ == kept_entries(old(self)@, keep@, keep@.len() as int),
    {
        proof {
            use_type_invariant(&*self);
        }
        let mut entries: Vec<(u32, T)> = Vec::new();
        std::mem::swap(&mut entries, &mut self.entries);
        let kept = retain_by_flags(&entries, keep);
        proof {
            lemma_kept_len(entries@, keep@, keep@.len() as int);
        }
        self.entries = kept;
    }
}

/// The entries of `entries[..n]` whose flag is set, in order.
pub open spec fn kept_entries<E>(entries: Seq<E>, keep: Seq<bool>, n: int) -> Seq<E>
    decreases n,
{
    if n <= 0 {
        Seq::empty()
    } else if keep[n - 1] {
        kept_entries(entries, keep, n - 1).push(entries[n - 1])
    } else {
        kept_entries(entries, keep, n - 1)
    }
}

proof fn lemma_kept_len<E>(entries: Seq<E>, keep: Seq<bool>, n: int)
    ensures
        kept_entries(entries, keep, n).len() <= if n < 0 {
            0
        } else {
            n
        },
    decreases n,
{
    if n > 0 {
        lemma_kept_len(entries, keep, n - 1);
    }
}

/// Every entry kept by its flag is an entry whose flag is set.
pub proof fn lemma_kept_are_flagged<E>(entries: Seq<E>, keep: Seq<bool>, n: int, k: int)
    requires
        0 <= n <= entries.len(),
        n <= keep.len(),
        0 <= k < kept_entries(entries, keep, n).len(),
    ensures
        exists|j: int| 0 <= j < n && keep[j] && entries[j] == #[trigger] kept_entries(entries, keep, n)[k],
    decreases n,
{
    let r = kept_entries(entries, keep, n);
    let prev = kept_entries(entries, keep, n - 1);
    if n > 0 {
        if k < prev.len() {
            lemma_kept_are_flagged(entries, keep, n - 1, k);
            assert(r[k] == prev[k]);
            let j = choose|j: int| 0 <= j < n - 1 && keep[j] && entries[j] == #[trigger] prev[k];
            assert(entries[j] == r[k]);
        } else {
            assert(r[k] == entries[n - 1]);
        }
    }
}

/// Every entry whose flag is set is kept.
pub proof fn lemma_flagged_are_kept<E>(entries: Seq<E>, keep: Seq<bool>, n: int, j: int)
    requires
        0 <= j < n <= entries.len(),
        n <= keep.len(),
        keep[j],
    ensures
        exists|k: int| 0 <= k < kept_entries(entries, keep, n).len() && #[trigger] kept_entries(entries, keep, n)[k] == entries[j],
    decreases n,
{
    let r = kept_entries(entries, keep, n);
    if j == n - 1 {
        assert(r[r.len() - 1] == entries[j]);
    } else {
        lemma_flagged_are_kept(entries, keep, n - 1, j);
        let prev = kept_entries(entries, keep, n - 1);
        let k = choose|k: int| 0 <= k < prev.len() && #[trigger] prev[k] == entries[j];
        if keep[n - 1] {
            assert(r[k] == prev[k]);
        }
    }
}

pub(crate) fn retain_by_flags<E: Copy>(entries: &Vec<E>, keep: &[bool]) -> (kept: Vec<E>)
    requires
        keep@.len() == entries@.len(),
    ensures
        kept@ == kept_entries(entries@, keep@, keep@.len() as int),
{
    let mut kept: Vec<E> = Vec::new();
    let mut i: usize = 0;
    while i < entries.len()
        invariant
            keep@.len() == entries@.len(),
            i <= entries@.len(),
            kept@ == kept_entries(entries@, keep@, i as int),
        decreases entries@.len() - i,
    {
        if keep[i] {
            kept.push(entries[i]);
        }
        i = i + 1;
    }
    kept
}

/// Position of the first weakest entry of a nonempty bank.
fn first_weakest<T: Copy>(entries: &Vec<(u32, T)>) -> (victim: usize)
    requires
        entries@.len() > 0,
    ensures
        is_first_weakest(entries@, victim as int),
{
    let mut victim: usize = 0;
    let mut i: usize = 1;
    while i < entries.len()
        invariant
            entries@.len() > 0,
            1 <= i <= entries@.len(),
            victim < i,
            forall|j: int| 0 <= j < i ==> entries@[victim as int].0 <= #[trigger] entries@[j].0,
            forall|j: int| 0 <= j < victim ==> entries@[victim as int].0 < #[trigger] entries@[j].0,
        decreases entries@.len() - i,
    {
        if entries[i].0 < entries[victim].0 {
            victim = i;
        }
        i = i + 1;
    }
    victim
}

/// A poke into a full bank never displaces a splash stronger than one that
/// stays, and the bank never outgrows the shader's table.
pub proof fn lemma_poke_displaces_weakest<T>(entries: Seq<(u32, T)>, key: u32, item: T, victim: int)
    requires
        entries.len() == SPLASH_SLOTS,
        is_first_weakest(entries, victim),
    ensures
        poke_step(entries, key, item, victim).len() == SPLASH_SLOTS,
        forall|j: int|
            0 <= j < SPLASH_SLOTS - 1 ==> entries[victim].0 <= #[trigger] poke_step(entries, key, item, victim)[j].0,
        poke_step(entries, key, item, victim).last() == (key, item),
{
    let after = poke_step(entries, key, item, victim);
    assert forall|j: int| 0 <= j < SPLASH_SLOTS - 1 implies entries[victim].0 <= #[trigger] after[j].0 by {
        if j < victim {
            assert(after[j] == entries[j]);
        } else {
            assert(after[j] == entries[j + 1]);
        }
    }
}

/// Pond touches awaiting the shader, oldest first. At most [`TOUCH_SLOTS`]
/// are held; a touch into a full bank retires the oldest.
pub struct TouchBank<T> {
    entries: Vec<T>,
}

impl<T> View for TouchBank<T> {
    type V = Seq<T>;

    closed spec fn view(&self) -> Seq<T> {
        self.entries@
    }
}

/// Bank contents after a touch.
pub open spec fn touch_step<T>(entries: Seq<T>, item: T) -> Seq<T> {
    if entries.len() >= TOUCH_SLOTS {
        entries.drop_first().push(item)
    } else {
        entries.push(item)
    }
}

impl<T> TouchBank<T> {
    #[verifier::type_invariant]
    closed spec fn bounded(&self) -> bool {
        self.entries@.len() <= TOUCH_SLOTS
    }
}

impl<T: Copy> TouchBank<T> {
    /// An empty bank.
    pub fn new() -> (b: TouchBank<T>)
        ensures
            b@ == Seq::<T>::empty(),
    {
        TouchBank { entries: Vec::new() }
    }

    /// Number of held touches.
    pub fn len(&self) -> (n: usize)
        ensures
            n == self@.len(),
            n <= TOUCH_SLOTS,
    {
        proof {
            use_type_invariant(self);
        }
        self.entries.len()
    }

    /// The held touch at position `i`, oldest first.
    pub fn get(&self, i: usize) -> (e: T)
        requires
            i < self@.len(),
        ensures
            e == self@[i as int],
    {
        self.entries[i]
    }

    /// Record a touch, retiring the oldest when the bank is full.
    pub fn touch(&mut self, item: T)
        ensures
            final(self)@ == touch_step(old(self)@, item),
            final(self)@.len() <= TOUCH_SLOTS,
    {
        proof {
            use_type_invariant(&*self);
        }
        let ghost before = self.entries@;
        let mut entries: Vec<T> = Vec::new();
        std::mem::swap(&mut entries, &mut self.entries);
        if entries.len() >= TOUCH_SLOTS {
            let _oldest = entries.remove(0);
        }
        entries.push(item);
        proof {
            assert(entries@ =~= touch_step(before, item));
        }
        self.entries = entries;
    }

    /// Retire every touch.
    pub fn clear(&mut self)
        ensures
            final(self)@ == Seq::<T>::empty(),
    {
        self.entries = Vec::new();
    }

    /// Keep exactly the touches whose flag is set, in order.
    pub fn retain_flagged(&mut self, keep: &[bool])
        requires
            keep@.len() == old(self)@.len(),
        ensures
            final(self)@ == kept_entries(old(self)@, keep@, keep@.len() as int),
    {
        proof {
            use_type_invariant(&*self);
        }
        let mut entries: Vec<T> = Vec::new();
        std::mem::swap(&mut entries, &mut self.entries);
        let kept = retain_by_flags(&entries, keep);
        proof {
            lemma_kept_len(entries@, keep@, keep@.len() as int);
        }
        self.entries = kept;
    }
}

/// A touch bank keeps the newest touches in arrival order: the new touch is
/// last and every older survivor keeps its relative place.
pub proof fn lemma_touch_keeps_newest<T>(entries: Seq<T>, item: T)
    requires
        entries.len() <= TOUCH_SLOTS,
    ensures
        touch_step(entries, item).len() <= TOUCH_SLOTS,
        touch_step(entries, item).last() == item,
        entries.len() < TOUCH_SLOTS ==> touch_step(entries, item).drop_last() == entries,
        entries.len() == TOUCH_SLOTS ==> touch_step(entries, item).drop_last() == entries.drop_first(),
{
    assert(touch_step(entries, item).drop_last() =~= if entries.len() >= TOUCH_SLOTS {
        entries.drop_first()
    } else {
        entries
    });
}

/// Division of the lift table between image plates and tooltip plates: at
/// most one tooltip rides the water, and the rest of the table is left to
/// image plates.
pub open spec fn lift_split(tooltips: int) -> (int, int) {
    let tooltip_slots = if tooltips < 1 {
        tooltips
    } else {
        1
    };
    ((LIFT_SLOTS as int) - tooltip_slots, tooltip_slots)
}

/// Slots of the lift table given to image plates and to tooltips.
pub fn lift_slots(tooltips: usize) -> (slots: (usize, usize))
    ensures
        slots.0 == lift_split(tooltips as int).0,
        slots.1 == lift_split(tooltips as int).1,
        slots.0 + slots.1 == LIFT_SLOTS,
{
    let tooltip_slots = if tooltips < 1 {
        tooltips
    } else {
        1
    };
    (LIFT_SLOTS - tooltip_slots, tooltip_slots)
}

/// What a sealed frame carries, counted.
#[derive(Clone, Copy, Debug)]
pub struct FrameTally {
    pub dry: bool,
    pub tensions: usize,
    pub lifts: usize,
    pub splashes: usize,
    pub raft: bool,
    pub wake: bool,
}

impl FrameTally {
    /// Whether the water is rendered at all.
    pub fn live(&self) -> (l: bool)
        ensures
            l == !self.dry,
    {
        !self.dry
    }

    /// Whether the solver must step this frame: a wet surface with any
    /// forcing, or with old energy still decaying.
    pub fn sim_live(&self) -> (l: bool)
        ensures
            l == (!self.dry && (self.tensions > 0 || self.lifts > 0 || self.splashes > 0 || self.raft
                || self.wake)),
    {
        !self.dry && (self.tensions > 0 || self.lifts > 0 || self.splashes > 0 || self.raft
            || self.wake)
    }
}

/// How long the water stays awake after a poke or a touch, in nanoseconds
/// (14 s).
pub const WATER_WAKE_NANOS: u64 = 14_000_000_000;

/// How long the water stays awake after a frame with control tensions, in
/// nanoseconds (8 s).
pub const QUIVER_WAKE_NANOS: u64 = 8_000_000_000;

/// A time, in nanoseconds on the owner's monotonic clock, from which every
/// wake deadline still fits the clock.
pub open spec fn wake_room(now: u64) -> bool {
    now <= u64::MAX - WATER_WAKE_NANOS
}

/// Deadlines until which a surface keeps asking for repaints.
#[derive(Clone, Copy, Debug, PartialEq, Eq)]
pub struct Wake {
    /// End of the wake left by the latest poke or touch.
    pub water_until: Option<u64>,
    /// End of the wake left by the latest frame with tensions.
    pub quiver_until: Option<u64>,
}

/// The wake after forcing at `now`: the water stays awake for
/// [`WATER_WAKE_NANOS`].
pub open spec fn armed_at(w: Wake, now: u64) -> Wake {
    Wake { water_until: Some((now + WATER_WAKE_NANOS) as u64), ..w }
}

/// A deadline still ahead of `now`.
pub open spec fn pending(until: Option<u64>, now: u64) -> bool {
    until matches Some(t) && t > now
}

/// The wake after sealing a frame at `now`, and whether the frame asks for a
/// repaint: tensions in the frame renew the quiver wake, an elapsed deadline
/// is dropped, and the frame asks for a repaint while either deadline is
/// ahead.
pub open spec fn wake_step(w: Wake, now: u64, tensions: bool) -> (Wake, bool) {
    let quiver = if tensions {
        Some((now + QUIVER_WAKE_NANOS) as u64)
    } else {
        w.quiver_until
    };
    let water_wake = pending(w.water_until, now);
    let quiver_wake = pending(quiver, now);
    (
        Wake {
            water_until: if water_wake {
                w.water_until
            } else {
                None
            },
            quiver_until: if quiver_wake {
                quiver
            } else {
                None
            },
        },
        water_wake || quiver_wake,
    )
}

impl Wake {
    /// A quiet surface: no deadline pending.
    pub fn new() -> (w: Wake)
        ensures
            w == (Wake { water_until: None, quiver_until: None }),
    {
        Wake { water_until: None, quiver_until: None }
    }

    /// Keep the water awake for [`WATER_WAKE_NANOS`] from `now`.
    pub fn arm(&mut self, now: u64)
        requires
            wake_room(now),
        ensures
            *final(self) == armed_at(*old(self), now),
    {
        self.water_until = Some(now + WATER_WAKE_NANOS);
    }

    /// Seal a frame at `now`; `tensions` tells whether it carries control
    /// tensions. Returns whether the frame asks for a repaint.
    pub fn frame(&mut self, now: u64, tensions: bool) -> (repaint: bool)
        requires
            wake_room(now),
        ensures
            (*final(self), repaint) == wake_step(*old(self), now, tensions),
    {
        if tensions {
            self.quiver_until = Some(now + QUIVER_WAKE_NANOS);
        }
        let quiver_wake = match self.quiver_until {
            Some(until) => until > now,
            None => false,
        };
        if !quiver_wake {
            self.quiver_until = None;
        }
        let water_wake = match self.water_until {
            Some(until) => until > now,
            None => false,
        };
        if !water_wake {
            self.water_until = None;
        }
        water_wake || quiver_wake
    }

    /// Forget every deadline, as a reset does.
    pub fn clear(&mut self)
        ensures
            *final(self) == (Wake { water_until: None, quiver_until: None }),
    {
        self.water_until = None;
        self.quiver_until = None;
    }
}

/// Forcing keeps the water awake: every frame sealed less than
/// [`WATER_WAKE_NANOS`] after a poke or a touch asks for a repaint, and so
/// does every frame that carries tensions.
pub proof fn lemma_forcing_keeps_water_awake(w: Wake, armed: u64, now: u64, tensions: bool)
    requires
        wake_room(armed),
        wake_room(now),
    ensures
        armed <= now < armed + WATER_WAKE_NANOS ==> wake_step(armed_at(w, armed), now, tensions).1,
        tensions ==> wake_step(w, now, true).1,
{
}

/// The water falls asleep: once both deadlines have passed and no tensions
/// arrive, a frame asks for no repaint and leaves no deadline, and a quiet
/// surface stays quiet.
pub proof fn lemma_wake_expires(w: Wake, now: u64)
    requires
        wake_room(now),
        !pending(w.water_until, now),
        !pending(w.quiver_until, now),
    ensures
        wake_step(w, now, false) == (Wake { water_until: None, quiver_until: None }, false),
{
}

/// One call that bears on a surface's wake, at its time on the owner's
/// clock: forcing (a kept poke, a touch, or any other arming), or the sealing
/// of a frame, with whether it carried tensions.
#[derive(Clone, Copy, Debug, PartialEq, Eq)]
pub enum WakeEvent {
    Forced(u64),
    Sealed(u64, bool),
}

/// Time of a wake event.
pub open spec fn event_time(e: WakeEvent) -> u64 {
    match e {
        WakeEvent::Forced(t) => t,
        WakeEvent::Sealed(t, _) => t,
    }
}

/// The wake left by a history of events since the last reset, which left
/// the surface quiet.
pub open spec fn replay(events: Seq<WakeEvent>) -> Wake
    decreases events.len(),
{
    if events.len() == 0 {
        Wake { water_until: None, quiver_until: None }
    } else {
        let w = replay(events.drop_last());
        match events.last() {
            WakeEvent::Forced(t) => armed_at(w, t),
            WakeEvent::Sealed(t, tensions) => wake_step(w, t, tensions).0,
        }
    }
}

/// Events in time order, each within the clock's room.
pub open spec fn chronological(events: Seq<WakeEvent>) -> bool {
    &&& forall|i: int| 0 <= i < events.len() ==> wake_room(#[trigger] event_time(events[i]))
    &&& forall|i: int, j: int| 0 <= i < j < events.len() ==> event_time(#[trigger] events[i]) <= event_time(
        #[trigger] events[j],
    )
}

/// Event `e` is forcing less than [`WATER_WAKE_NANOS`] before `now`.
pub open spec fn forced_recently(e: WakeEvent, now: u64) -> bool {
    e matches WakeEvent::Forced(t) && now < t + WATER_WAKE_NANOS
}

/// Event `e` sealed a frame with tensions less than [`QUIVER_WAKE_NANOS`]
/// before `now`.
pub open spec fn tensed_recently(e: WakeEvent, now: u64) -> bool {
    e matches WakeEvent::Sealed(t, true) && now < t + QUIVER_WAKE_NANOS
}

proof fn lemma_replay_tracks_history(events: Seq<WakeEvent>, now: u64)
    requires
        chronological(events),
        events.len() > 0 ==> event_time(events.last()) <= now,
    ensures
        pending(replay(events).water_until, now) <==> exists|i: int|
            0 <= i < events.len() && #[trigger] forced_recently(events[i], now),
        pending(replay(events).quiver_until, now) <==> exists|i: int|
            0 <= i < events.len() && #[trigger] tensed_recently(events[i], now),
    decreases events.len(),
{
    if events.len() > 0 {
        let prev = events.drop_last();
        let e = events.last();
        let n = events.len() - 1;
        assert(event_time(events[n]) <= now);
        assert(chronological(prev)) by {
            assert forall|i: int| 0 <= i < prev.len() implies wake_room(#[trigger] event_time(prev[i])) by {
                assert(prev[i] == events[i]);
            }
            assert forall|i: int, j: int| 0 <= i < j < prev.len() implies event_time(#[trigger] prev[i])
                <= event_time(#[trigger] prev[j]) by {
                assert(prev[i] == events[i] && prev[j] == events[j]);
            }
        }
        if prev.len() > 0 {
            assert(prev.last() == events[n - 1]);
            assert(event_time(events[n - 1]) <= event_time(events[n]));
        }
        lemma_replay_tracks_history(prev, now);
        assert(wake_room(event_time(events[n])));
        assert forall|i: int| 0 <= i < n implies #[trigger] events[i] == prev[i] && event_time(events[i])
            <= event_time(e) by {}
        match e {
            WakeEvent::Forced(t) => {
                if now < t + WATER_WAKE_NANOS {
                    assert(forced_recently(events[n], now));
                } else {
                    assert forall|i: int| 0 <= i < events.len() implies !#[trigger] forced_recently(events[i], now) by {
                        if i < n {
                            assert(event_time(events[i]) <= t);
                        }
                    }
                }
                assert(forall|i: int| 0 <= i < events.len() ==> #[trigger] tensed_recently(events[i], now) == (
                i < n && tensed_recently(prev[i], now)));
                assert((exists|i: int| 0 <= i < events.len() && #[trigger] tensed_recently(events[i], now)) ==> (
                exists|i: int| 0 <= i < prev.len() && #[trigger] tensed_recently(prev[i], now)));
            },
            WakeEvent::Sealed(t, tensions) => {
                assert(forall|i: int| 0 <= i < events.len() ==> #[trigger] forced_recently(events[i], now) == (
                i < n && forced_recently(prev[i], now)));
                assert((exists|i: int| 0 <= i < events.len() && #[trigger] forced_recently(events[i], now)) ==> (
                exists|i: int| 0 <= i < prev.len() && #[trigger] forced_recently(prev[i], now)));
                if tensions {
                    if now < t + QUIVER_WAKE_NANOS {
                        assert(tensed_recently(events[n], now));
                    } else {
                        assert forall|i: int| 0 <= i < events.len() implies !#[trigger] tensed_recently(events[i], now) by {
                            if i < n {
                                assert(event_time(events[i]) <= t);
                            }
                        }
                    }
                } else {
                    assert(forall|i: int| 0 <= i < events.len() ==> #[trigger] tensed_recently(events[i], now) == (
                    i < n && tensed_recently(prev[i], now)));
                    assert((exists|i: int| 0 <= i < events.len() && #[trigger] tensed_recently(events[i], now)) ==> (
                    exists|i: int| 0 <= i < prev.len() && #[trigger] tensed_recently(prev[i], now)));
                }
            },
        }
    }
}

/// The repaint law over a surface's history since its last reset: a frame
/// sealed at `now` asks for a repaint exactly when some forcing happened less
/// than [`WATER_WAKE_NANOS`] before it, or some frame with tensions, this one
/// included, was sealed less than [`QUIVER_WAKE_NANOS`] before it.
pub proof fn lemma_repaint_follows_history(events: Seq<WakeEvent>, now: u64, tensions: bool)
    requires
        chronological(events.push(WakeEvent::Sealed(now, tensions))),
    ensures
        wake_step(replay(events), now, tensions).1 <==> (exists|i: int|
            0 <= i < events.len() && #[trigger] forced_recently(events[i], now)) || (exists|i: int|
            0 <= i <= events.len() && #[trigger] tensed_recently(
                events.push(WakeEvent::Sealed(now, tensions))[i],
                now,
            )),
{
    let all = events.push(WakeEvent::Sealed(now, tensions));
    let n = events.len() as int;
    assert(all[n] == WakeEvent::Sealed(now, tensions));
    assert(chronological(events)) by {
        assert forall|i: int| 0 <= i < events.len() implies wake_room(#[trigger] event_time(events[i])) by {
            assert(all[i] == events[i]);
        }
        assert forall|i: int, j: int| 0 <= i < j < events.len() implies event_time(#[trigger] events[i])
            <= event_time(#[trigger] events[j]) by {
            assert(all[i] == events[i] && all[j] == events[j]);
        }
    }
    if n > 0 {
        assert(all[n - 1] == events.last());
        assert(event_time(all[n - 1]) <= event_time(all[n]));
    }
    assert(wake_room(event_time(all[n])));
    lemma_replay_tracks_history(events, now);
    let w = replay(events);
    assert(forall|i: int| 0 <= i < n ==> #[trigger] all[i] == events[i]);
    assert(now + QUIVER_WAKE_NANOS <= u64::MAX);
    if tensions {
        assert(tensed_recently(all[n], now));
        assert(wake_step(w, now, tensions).1);
    } else {
        assert(wake_step(w, now, tensions).1 == (pending(w.water_until, now) || pending(w.quiver_until, now)));
        assert(!tensed_recently(all[n], now));
        if exists|i: int| 0 <= i <= n && #[trigger] tensed_recently(all[i], now) {
            let i = choose|i: int| 0 <= i <= n && #[trigger] tensed_recently(all[i], now);
            assert(i < n);
            assert(tensed_recently(events[i], now));
        }
        if pending(w.quiver_until, now) {
            let i = choose|i: int| 0 <= i < events.len() && #[trigger] tensed_recently(events[i], now);
            assert(tensed_recently(all[i], now));
        }
    }
}

/// The forcing queues of one surface and the wake they leave.
pub struct Forcing<P, T> {
    /// Splashes awaiting the shader.
    pub plunges: SplashBank<P>,
    /// Pond touches awaiting the shader.
    pub touches: TouchBank<T>,
    /// The repaint deadlines.
    pub wake: Wake,
}

impl<P: Copy, T: Copy> Forcing<P, T> {
    /// Quiet forcing: no splash, no touch, no deadline.
    pub fn new() -> (f: Forcing<P, T>)
        ensures
            f.plunges@ == Seq::<(u32, P)>::empty(),
            f.touches@ == Seq::<T>::empty(),
            f.wake == (Wake { water_until: None, quiver_until: None }),
    {
        Forcing { plunges: SplashBank::new(), touches: TouchBank::new(), wake: Wake::new() }
    }

    /// Place a splash of amplitude bits `amp_bits` at `now`. A splash no
    /// stronger than `f32::EPSILON` is dropped and changes nothing; a kept
    /// one enters the splash bank, displacing the first weakest splash of a
    /// full bank, and keeps the water awake from `now`.
    pub fn poke(&mut self, amp_bits: u32, item: P, now: u64) -> (kept: bool)
        requires
            wake_room(now),
        ensures
            kept == (strength(amp_bits) > AMP_EPSILON_BITS),
            !kept ==> final(self).plunges@ == old(self).plunges@,
            kept ==> exists|victim: int|
                {
                    &&& (old(self).plunges@.len() >= SPLASH_SLOTS ==> is_first_weakest(old(self).plunges@, victim))
                    &&& final(self).plunges@ == #[trigger] poke_step(old(self).plunges@, strength(amp_bits), item, victim)
                },
            final(self).plunges@.len() <= SPLASH_SLOTS,
            final(self).touches@ == old(self).touches@,
            final(self).wake == if kept {
                armed_at(old(self).wake, now)
            } else {
                old(self).wake
            },
    {
        let kept = self.plunges.poke(amp_bits, item);
        if kept {
            self.wake.arm(now);
        }
        kept
    }

    /// Touch the open pond at `now`: the touch enters the touch bank,
    /// retiring the oldest of a full bank, and keeps the water awake.
    pub fn touch(&mut self, item: T, now: u64)
        requires
            wake_room(now),
        ensures
            final(self).touches@ == touch_step(old(self).touches@, item),
            final(self).touches@.len() <= TOUCH_SLOTS,
            final(self).plunges@ == old(self).plunges@,
            final(self).wake == armed_at(old(self).wake, now),
    {
        self.touches.touch(item);
        self.wake.arm(now);
    }

    /// Erase the forcing history, as a reset does: no splash, no touch, no
    /// deadline.
    pub fn reset(&mut self)
        ensures
            final(self).plunges@ == Seq::<(u32, P)>::empty(),
            final(self).touches@ == Seq::<T>::empty(),
            final(self).wake == (Wake { water_until: None, quiver_until: None }),
    {
        self.plunges = SplashBank::new();
        self.touches.clear();
        self.wake.clear();
    }
}

} // verus!
